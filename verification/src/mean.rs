//! The sliding-window alpha-trimmed-mean filter.
//!
//! For each column of a strip the engine keeps the `alpha / 2` smallest
//! samples of the column's window as an ascending list, the `alpha / 2`
//! largest as a descending list, and the sum of the samples between them.
//! Whenever a row enters or leaves the window, the lists and the sum of each
//! column are taken anew from the column's histogram, so they hold of the
//! window as it then is.

use vstd::prelude::*;
use crate::error::{ArgFault, ImgProcError};
use crate::histogram::{lemma_below_all, lemma_below_update, lemma_span_bounds, PartialHistograms,
    COUNT_LIMIT, MAX_RADIUS, MAX_STRIP};
use crate::image::Image;
use crate::median::{gather_row, lemma_area_bounds, lemma_tracks_below, strip_width, tracks};
use crate::window::{lemma_row_clamped, lemma_rows_bounds, lemma_rows_slide, lemma_span_is_line,
    rows_count, signed, span_count, window_area, window_below, window_count, window_side};

verus! {

/// Of the samples that hold the ranks `[below, next)` of a window, counted
/// from zero, the number whose rank lies in `[trim, area - trim)`.
pub open spec fn kept(below: int, next: int, trim: int, area: int) -> int {
    let lo = if below > trim {
        below
    } else {
        trim
    };
    let hi = if next < area - trim {
        next
    } else {
        area - trim
    };
    if hi > lo {
        hi - lo
    } else {
        0
    }
}

/// Sum of the samples less than `p` that remain in the window of radius `r`
/// centred at `(x, y)` once its `trim` smallest and `trim` largest samples
/// are set aside.
pub open spec fn window_trimmed_upto(
    img: &Image,
    x: int,
    y: int,
    c: int,
    r: int,
    trim: int,
    p: int,
) -> int
    decreases p,
{
    if p <= 0 {
        0
    } else {
        window_trimmed_upto(img, x, y, c, r, trim, p - 1) + (p - 1) * kept(
            window_below(img, x, y, c, r, p - 1),
            window_below(img, x, y, c, r, p),
            trim,
            window_area(r),
        )
    }
}

/// Sum of the samples that remain in the window once its `alpha / 2`
/// smallest and `alpha / 2` largest samples are set aside.
pub open spec fn window_trimmed_sum(img: &Image, x: int, y: int, c: int, r: int, alpha: int) -> int {
    window_trimmed_upto(img, x, y, c, r, alpha / 2, 256)
}

/// `sum / len` rounded to the nearest integer, halves upwards, and clamped to a sample's range.
pub open spec fn rounded_mean(sum: int, len: int) -> int {
    if sum < 0 {
        0
    } else if (2 * sum + len) / (2 * len) > 255 {
        255
    } else {
        (2 * sum + len) / (2 * len)
    }
}

/// `m` is the alpha-trimmed mean of the window of radius `r` centred at
/// `(x, y)` in channel `c`.
pub open spec fn is_trimmed_mean(img: &Image, x: int, y: int, c: int, r: int, alpha: int, m: int) -> bool {
    m == rounded_mean(window_trimmed_sum(img, x, y, c, r, alpha), window_area(r) - alpha)
}

/// Sum of the samples less than `p` that remain of column `col` of a bank
/// once the `trim` smallest and `trim` largest of `area` samples are set aside.
pub open spec fn bank_trimmed_upto(bank: &PartialHistograms, col: int, trim: int, area: int, p: int) -> int
    decreases p,
{
    if p <= 0 {
        0
    } else {
        bank_trimmed_upto(bank, col, trim, area, p - 1) + (p - 1) * kept(
            bank.below(col, p - 1),
            bank.below(col, p),
            trim,
            area,
        )
    }
}

/// A bank that tracks a window has the trimmed sums of the window.
pub proof fn lemma_tracks_trimmed(
    bank: &PartialHistograms,
    img: &Image,
    x: int,
    y: int,
    c: int,
    n: int,
    trim: int,
    p: int,
)
    requires
        tracks(bank, img, x, y, c),
        0 <= n < bank.n_cols,
        0 <= p <= 256,
    ensures
        bank_trimmed_upto(bank, n, trim, window_area(bank.radius as int), p) == window_trimmed_upto(
            img,
            x + n,
            y,
            c,
            bank.radius as int,
            trim,
            p,
        ),
    decreases p,
{
    if p > 0 {
        lemma_tracks_trimmed(bank, img, x, y, c, n, trim, p - 1);
        lemma_tracks_below(bank, img, x, y, c, n, p - 1);
        lemma_tracks_below(bank, img, x, y, c, n, p);
    }
}

/// Largest number of samples that a column of a bank can hold.
pub const TOTAL_LIMIT: i64 = 0x20_0000_0000;

/// `lower` holds the `trim` smallest samples of column `col`, in ascending
/// order: its entry `k` is the sample of rank `k`, counted from zero.
pub open spec fn is_lower_list(bank: &PartialHistograms, col: int, trim: int, lower: Seq<u8>) -> bool {
    &&& lower.len() == trim
    &&& forall|k: int|
        0 <= k < trim ==> bank.below(col, #[trigger] lower[k] as int) <= k < bank.below(
            col,
            lower[k] + 1,
        )
    &&& forall|j: int, k: int| 0 <= j <= k < trim ==> lower[j] <= lower[k]
}

/// `upper` holds the `trim` largest samples of column `col`, in descending
/// order: its entry `k` is the sample of rank `k`, counted from the top.
pub open spec fn is_upper_list(bank: &PartialHistograms, col: int, trim: int, upper: Seq<u8>) -> bool {
    &&& upper.len() == trim
    &&& forall|k: int|
        0 <= k < trim ==> bank.below(col, #[trigger] upper[k] as int) <= bank.below(col, 256) - 1
            - k < bank.below(col, upper[k] + 1)
    &&& forall|j: int, k: int| 0 <= j <= k < trim ==> upper[j] >= upper[k]
}

/// What an engine keeps of column `col`: the `trim` smallest samples, the
/// `trim` largest, and the sum of all the others.
pub open spec fn holds_trimmed(
    bank: &PartialHistograms,
    col: int,
    trim: int,
    lower: Seq<u8>,
    upper: Seq<u8>,
    sum: int,
) -> bool {
    &&& is_lower_list(bank, col, trim, lower)
    &&& is_upper_list(bank, col, trim, upper)
    &&& sum == bank_trimmed_upto(bank, col, trim, bank.below(col, 256), 256)
}

/// The number of samples in the window of column `i`.
pub fn total_count(bank: &PartialHistograms, i: usize) -> (total: i64)
    requires
        bank.wf(),
        i < bank.n_cols,
        bank.counts_within(0, COUNT_LIMIT as int),
    ensures
        total == bank.below(i as int, 256),
        0 <= total <= TOTAL_LIMIT,
{
    let mut below: i64 = 0;
    let mut v: usize = 0;
    while v < 256
        invariant
            bank.wf(),
            i < bank.n_cols,
            bank.counts_within(0, COUNT_LIMIT as int),
            v <= 256,
            below == bank.below(i as int, v as int),
            0 <= below <= v * 0x2000_0000,
        decreases 256 - v,
    {
        let add: i32 = bank.get_count(v as u8, i);
        assert(0 <= bank.count(i as int, v as int) <= COUNT_LIMIT);
        assert(bank.below(i as int, v + 1) == below + add);
        below = below + add as i64;
        v += 1;
    }
    below
}

/// The `trim` smallest samples of column `i`, in ascending order.
pub fn smallest_samples(bank: &PartialHistograms, i: usize, trim: usize) -> (lower: Vec<u8>)
    requires
        bank.wf(),
        i < bank.n_cols,
        bank.counts_within(0, COUNT_LIMIT as int),
        trim <= bank.below(i as int, 256),
    ensures
        is_lower_list(bank, i as int, trim as int, lower@),
{
    let mut lower: Vec<u8> = Vec::new();
    let mut below: i64 = 0;
    let mut v: usize = 0;
    while v < 256
        invariant
            bank.wf(),
            i < bank.n_cols,
            bank.counts_within(0, COUNT_LIMIT as int),
            v <= 256,
            below == bank.below(i as int, v as int),
            0 <= below <= v * 0x2000_0000,
            lower@.len() <= trim,
            lower@.len() == if below < trim {
                below as int
            } else {
                trim as int
            },
            forall|k: int|
                0 <= k < lower@.len() ==> bank.below(i as int, #[trigger] lower@[k] as int) <= k
                    < bank.below(i as int, lower@[k] + 1),
            forall|k: int| 0 <= k < lower@.len() ==> #[trigger] lower@[k] < v,
            forall|j: int, k: int| 0 <= j <= k < lower@.len() ==> lower@[j] <= lower@[k],
        decreases 256 - v,
    {
        let add: i32 = bank.get_count(v as u8, i);
        assert(0 <= bank.count(i as int, v as int) <= COUNT_LIMIT);
        let next: i64 = below + add as i64;
        assert(bank.below(i as int, v + 1) == next);
        while lower.len() < trim && (lower.len() as i64) < next
            invariant
                v < 256,
                below == bank.below(i as int, v as int),
                next == bank.below(i as int, v + 1),
                below <= next,
                lower@.len() <= trim,
                lower@.len() <= next || lower@.len() == 0,
                lower@.len() >= if below < trim {
                    below as int
                } else {
                    trim as int
                },
                forall|k: int|
                    0 <= k < lower@.len() ==> bank.below(i as int, #[trigger] lower@[k] as int) <= k
                        < bank.below(i as int, lower@[k] + 1),
                forall|k: int| 0 <= k < lower@.len() ==> #[trigger] lower@[k] <= v,
                forall|j: int, k: int| 0 <= j <= k < lower@.len() ==> lower@[j] <= lower@[k],
            decreases trim - lower@.len(),
        {
            lower.push(v as u8);
        }
        below = next;
        v += 1;
    }
    lower
}

/// The `trim` largest samples of column `i`, in descending order.
pub fn largest_samples(bank: &PartialHistograms, i: usize, trim: usize, total: i64) -> (upper: Vec<u8>)
    requires
        bank.wf(),
        i < bank.n_cols,
        bank.counts_within(0, COUNT_LIMIT as int),
        total == bank.below(i as int, 256),
        trim <= total <= TOTAL_LIMIT,
    ensures
        is_upper_list(bank, i as int, trim as int, upper@),
{
    let mut upper: Vec<u8> = Vec::new();
    let mut top: i64 = total;
    let mut v: usize = 256;
    while v > 0
        invariant
            bank.wf(),
            i < bank.n_cols,
            bank.counts_within(0, COUNT_LIMIT as int),
            total == bank.below(i as int, 256),
            0 <= total <= TOTAL_LIMIT,
            v <= 256,
            top == bank.below(i as int, v as int),
            total - (256 - v) * 0x2000_0000 <= top <= total,
            trim <= TOTAL_LIMIT,
            upper@.len() <= trim,
            upper@.len() == if total - top < trim {
                total - top
            } else {
                trim as int
            },
            forall|k: int|
                0 <= k < upper@.len() ==> bank.below(i as int, #[trigger] upper@[k] as int) <= total
                    - 1 - k < bank.below(i as int, upper@[k] + 1),
            forall|k: int| 0 <= k < upper@.len() ==> #[trigger] upper@[k] >= v,
            forall|j: int, k: int| 0 <= j <= k < upper@.len() ==> upper@[j] >= upper@[k],
        decreases v,
    {
        v -= 1;
        let add: i32 = bank.get_count(v as u8, i);
        assert(0 <= bank.count(i as int, v as int) <= COUNT_LIMIT);
        assert(bank.below(i as int, v + 1) == bank.below(i as int, v as int) + add);
        let prev: i64 = top - add as i64;
        while upper.len() < trim && (upper.len() as i64) < total - prev
            invariant
                v < 256,
                prev == bank.below(i as int, v as int),
                top == bank.below(i as int, v + 1),
                prev <= top <= total,
                total - TOTAL_LIMIT - 0x2000_0000 <= prev,
                trim <= TOTAL_LIMIT,
                upper@.len() <= trim,
                upper@.len() <= total - prev,
                upper@.len() >= if total - top < trim {
                    total - top
                } else {
                    trim as int
                },
                forall|k: int|
                    0 <= k < upper@.len() ==> bank.below(i as int, #[trigger] upper@[k] as int)
                        <= total - 1 - k < bank.below(i as int, upper@[k] + 1),
                forall|k: int| 0 <= k < upper@.len() ==> #[trigger] upper@[k] >= v,
                forall|j: int, k: int| 0 <= j <= k < upper@.len() ==> upper@[j] >= upper@[k],
            decreases trim - upper@.len(),
        {
            upper.push(v as u8);
        }
        top = prev;
    }
    assert(bank.below(i as int, 0) == 0);
    upper
}

/// The sum of the samples of column `i` without the `trim` smallest and the
/// `trim` largest of its `total` samples.
pub fn trimmed_sum(bank: &PartialHistograms, i: usize, trim: i64, total: i64) -> (sum: i64)
    requires
        bank.wf(),
        i < bank.n_cols,
        bank.counts_within(0, COUNT_LIMIT as int),
        0 <= trim <= TOTAL_LIMIT,
        0 <= total <= TOTAL_LIMIT,
    ensures
        sum == bank_trimmed_upto(bank, i as int, trim as int, total as int, 256),
{
    let mut below: i64 = 0;
    let mut sum: i64 = 0;
    let mut v: usize = 0;
    while v < 256
        invariant
            bank.wf(),
            i < bank.n_cols,
            bank.counts_within(0, COUNT_LIMIT as int),
            0 <= trim <= TOTAL_LIMIT,
            0 <= total <= TOTAL_LIMIT,
            v <= 256,
            below == bank.below(i as int, v as int),
            0 <= below <= v * 0x2000_0000,
            sum == bank_trimmed_upto(bank, i as int, trim as int, total as int, v as int),
            0 <= sum <= v * 0x1f_e000_0000,
        decreases 256 - v,
    {
        let add: i32 = bank.get_count(v as u8, i);
        assert(0 <= bank.count(i as int, v as int) <= COUNT_LIMIT);
        let next: i64 = below + add as i64;
        let lo: i64 = if below > trim {
            below
        } else {
            trim
        };
        let hi: i64 = if next < total - trim {
            next
        } else {
            total - trim
        };
        proof {
            assert(bank.below(i as int, v + 1) == next);
            assert(kept(below as int, next as int, trim as int, total as int) == if hi > lo {
                hi - lo
            } else {
                0
            });
        }
        if hi > lo {
            let d: i64 = hi - lo;
            assert(0 <= v * d <= 0x1f_e000_0000) by (nonlinear_arith)
                requires
                    0 <= v <= 255,
                    0 <= d <= 0x2000_0000,
            ;
            sum += (v as i64) * d;
        }
        below = next;
        v += 1;
    }
    sum
}

/// The smallest value from `p` upwards of which column `col` holds a sample; 256 where there is none.
pub open spec fn next_nonempty(bank: &PartialHistograms, col: int, p: int) -> int
    decreases 256 - p,
{
    if p >= 256 {
        256
    } else if bank.count(col, p) > 0 {
        p
    } else {
        next_nonempty(bank, col, p + 1)
    }
}

/// The largest value below `p` of which column `col` holds a sample; -1 where there is none.
pub open spec fn prev_nonempty(bank: &PartialHistograms, col: int, p: int) -> int
    decreases p,
{
    if p <= 0 {
        -1
    } else if bank.count(col, p - 1) > 0 {
        p - 1
    } else {
        prev_nonempty(bank, col, p - 1)
    }
}

/// A copy of `list` with `value` appended.
pub fn appended(list: &Vec<u8>, value: u8) -> (r: Vec<u8>)
    ensures
        r@ == list@.push(value),
{
    let mut r: Vec<u8> = Vec::new();
    let mut k: usize = 0;
    while k < list.len()
        invariant
            k <= list@.len(),
            r@ == list@.subrange(0, k as int),
        decreases list@.len() - k,
    {
        r.push(list[k]);
        k += 1;
        assert(r@ =~= list@.subrange(0, k as int));
    }
    r.push(value);
    assert(r@ =~= list@.push(value));
    r
}

/// The trimmed-mean engine of one strip and one channel: the bank, and for
/// each column the `trim` smallest samples of its window in ascending
/// order, the `trim` largest in descending order, and the sum of the others.
pub struct MeanHist {
    pub data: PartialHistograms,
    pub sums: Vec<i64>,
    pub lower: Vec<Vec<u8>>,
    pub upper: Vec<Vec<u8>>,
    pub trim: usize,
    pub len: usize,
}

impl MeanHist {
    /// The bank is well formed, the sums and lists are either not set yet or
    /// one for each column, and the trimmed and the remaining samples make
    /// up a window.
    pub open spec fn wf(&self) -> bool {
        &&& self.data.wf()
        &&& (self.sums@.len() == 0 || self.sums@.len() == self.data.n_cols)
        &&& self.lower@.len() == self.sums@.len()
        &&& self.upper@.len() == self.sums@.len()
        &&& 1 <= self.len
        &&& 2 * self.trim + self.len == window_area(self.data.radius as int)
    }

    /// The sums and lists are set.
    pub open spec fn primed(&self) -> bool {
        self.sums@.len() == self.data.n_cols
    }

    /// What the engine keeps of column `n` is what the bank holds of it.
    pub open spec fn column_consistent(&self, n: int) -> bool {
        holds_trimmed(
            &self.data,
            n,
            self.trim as int,
            self.lower@[n]@,
            self.upper@[n]@,
            self.sums@[n] as int,
        )
    }

    /// For every column, the lists hold the `trim` smallest and the `trim`
    /// largest samples of the column's window, and the sum is that of the others.
    pub open spec fn consistent(&self) -> bool {
        &&& self.primed()
        &&& forall|n: int| 0 <= n < self.data.n_cols ==> #[trigger] self.column_consistent(n)
    }

    /// An engine with an empty bank and no sums, for `alpha` trimmed samples a window.
    pub fn new(radius: usize, n_cols: usize, alpha: u32) -> (r: Self)
        requires
            radius <= MAX_RADIUS,
            n_cols <= MAX_STRIP,
            n_cols % 2 == 1,
            alpha % 2 == 0,
            alpha < window_area(radius as int),
        ensures
            r.wf(),
            r.data.radius == radius,
            r.data.n_cols == n_cols,
            r.trim == alpha / 2,
            r.len == window_area(radius as int) - alpha,
            r.sums@.len() == 0,
            forall|col: int, v: int|
                0 <= col < n_cols && 0 <= v < 256 ==> #[trigger] r.data.count(col, v) == 0,
    {
        let size: usize = 2 * radius + 1;
        proof {
            lemma_area_bounds(radius as int);
            assert(size * size == window_area(radius as int)) by (nonlinear_arith)
                requires
                    size == window_side(radius as int),
                    window_area(radius as int) == window_side(radius as int) * window_side(
                        radius as int,
                    ),
            ;
        }
        let len: usize = size * size - alpha as usize;
        MeanHist {
            data: PartialHistograms::new(radius, n_cols),
            sums: Vec::new(),
            lower: Vec::new(),
            upper: Vec::new(),
            trim: (alpha as usize) / 2,
            len,
        }
    }

    /// The bank.
    pub fn data(&self) -> (r: &PartialHistograms)
        ensures
            r == &self.data,
    {
        &self.data
    }

    /// Sets every sum to zero and every list to the empty list.
    pub fn init(&mut self)
        requires
            old(self).wf(),
        ensures
            final(self).wf(),
            final(self).primed(),
            final(self).data == old(self).data,
            final(self).trim == old(self).trim,
            final(self).len == old(self).len,
            forall|n: int| 0 <= n < final(self).sums@.len() ==> final(self).sums@[n] == 0,
            forall|n: int| 0 <= n < final(self).lower@.len() ==> final(self).lower@[n]@.len() == 0,
            forall|n: int| 0 <= n < final(self).upper@.len() ==> final(self).upper@[n]@.len() == 0,
    {
        let n_cols: usize = self.data.n_cols;
        let mut lower: Vec<Vec<u8>> = Vec::new();
        let mut upper: Vec<Vec<u8>> = Vec::new();
        let mut n: usize = 0;
        while n < n_cols
            invariant
                n <= n_cols,
                lower@.len() == n,
                upper@.len() == n,
                forall|m: int| 0 <= m < n ==> lower@[m]@.len() == 0,
                forall|m: int| 0 <= m < n ==> upper@[m]@.len() == 0,
            decreases n_cols - n,
        {
            lower.push(Vec::new());
            upper.push(Vec::new());
            n += 1;
        }
        self.sums = vec![0i64; n_cols];
        self.lower = lower;
        self.upper = upper;
    }

    /// Sets the sum of column `index`.
    pub fn set_sum(&mut self, sum: i64, index: usize)
        requires
            old(self).wf(),
            old(self).primed(),
            index < old(self).data.n_cols,
        ensures
            final(self).wf(),
            final(self).data == old(self).data,
            final(self).lower == old(self).lower,
            final(self).upper == old(self).upper,
            final(self).trim == old(self).trim,
            final(self).len == old(self).len,
            final(self).sums@ == old(self).sums@.update(index as int, sum),
    {
        self.sums.set(index, sum);
    }

    /// Sets the list of the largest samples of column `index`.
    pub fn set_upper(&mut self, vals: Vec<u8>, index: usize)
        requires
            old(self).wf(),
            old(self).primed(),
            index < old(self).data.n_cols,
        ensures
            final(self).wf(),
            final(self).data == old(self).data,
            final(self).lower == old(self).lower,
            final(self).sums == old(self).sums,
            final(self).trim == old(self).trim,
            final(self).len == old(self).len,
            final(self).upper@ == old(self).upper@.update(index as int, vals),
    {
        self.upper.set(index, vals);
    }

    /// Sets the list of the smallest samples of column `index`.
    pub fn set_lower(&mut self, vals: Vec<u8>, index: usize)
        requires
            old(self).wf(),
            old(self).primed(),
            index < old(self).data.n_cols,
        ensures
            final(self).wf(),
            final(self).data == old(self).data,
            final(self).upper == old(self).upper,
            final(self).sums == old(self).sums,
            final(self).trim == old(self).trim,
            final(self).len == old(self).len,
            final(self).lower@ == old(self).lower@.update(index as int, vals),
    {
        self.lower.set(index, vals);
    }

    /// The smallest of the largest samples set aside in column `index`.
    pub fn upper(&self, index: usize) -> (r: u8)
        requires
            self.wf(),
            self.primed(),
            index < self.data.n_cols,
            1 <= self.trim,
            self.upper@[index as int]@.len() == self.trim,
        ensures
            r == self.upper@[index as int]@[self.trim - 1],
    {
        self.upper[index][self.trim - 1]
    }

    /// The largest of the smallest samples set aside in column `index`.
    pub fn lower(&self, index: usize) -> (r: u8)
        requires
            self.wf(),
            self.primed(),
            index < self.data.n_cols,
            1 <= self.trim,
            self.lower@[index as int]@.len() == self.trim,
        ensures
            r == self.lower@[index as int]@[self.trim - 1],
    {
        self.lower[index][self.trim - 1]
    }

    /// The mean of column `index`: its sum over the number of samples that
    /// remain after trimming, rounded and clamped to a sample's range.
    pub fn get_mean(&self, index: usize) -> (r: u8)
        requires
            self.wf(),
            self.primed(),
            index < self.data.n_cols,
        ensures
            r == rounded_mean(self.sums@[index as int] as int, self.len as int),
    {
        let sum: i64 = self.sums[index];
        proof {
            lemma_area_bounds(self.data.radius as int);
        }
        if sum < 0 {
            return 0;
        }
        let len: i128 = self.len as i128;
        let q: i128 = (2 * (sum as i128) + len) / (2 * len);
        if q > 255 {
            255
        } else {
            q as u8
        }
    }

    /// Appends the next sample to the list of the smallest samples of
    /// column `n` and takes it off the column's sum: `lower` itself where
    /// `lower_count` says that the window holds another sample of that
    /// value, else the smallest value above `lower` of which the window
    /// holds a sample. Where there is no such value, nothing changes.
    pub fn get_next_lower(&mut self, n: usize, lower_count: i32, lower: u8)
        requires
            old(self).wf(),
            old(self).primed(),
            n < old(self).data.n_cols,
            old(self).data.counts_within(-(COUNT_LIMIT as int), COUNT_LIMIT as int),
            i64::MIN + 255 <= old(self).sums@[n as int],
        ensures
            final(self).wf(),
            final(self).primed(),
            final(self).data == old(self).data,
            final(self).trim == old(self).trim,
            final(self).len == old(self).len,
            final(self).upper == old(self).upper,
            forall|m: int|
                0 <= m < old(self).data.n_cols && m != n ==> final(self).sums@[m] == old(self).sums@[m] && final(self).lower@[m] == old(self).lower@[m],
            ({
                let w = if lower_count > 0 {
                    lower as int
                } else {
                    next_nonempty(&old(self).data, n as int, lower + 1)
                };
                if w < 256 {
                    final(self).lower@[n as int]@ == old(self).lower@[n as int]@.push(w as u8)
                        && final(self).sums@[n as int] == old(self).sums@[n as int] - w
                } else {
                    final(self).lower@[n as int] == old(self).lower@[n as int] && final(self).sums@[n as int] == old(self).sums@[n as int]
                }
            }),
    {
        let mut key: usize = lower as usize;
        if lower_count <= 0 {
            key = key + 1;
            loop
                invariant
                    self.wf(),
                    n < self.data.n_cols,
                    self.data.counts_within(-(COUNT_LIMIT as int), COUNT_LIMIT as int),
                    lower < key <= 256,
                    next_nonempty(&self.data, n as int, lower + 1) == next_nonempty(
                        &self.data,
                        n as int,
                        key as int,
                    ),
                ensures
                    key <= 256,
                    key == next_nonempty(&self.data, n as int, lower + 1),
                decreases 256 - key,
            {
                if key >= 256 {
                    break ;
                }
                let count: i32 = self.data.get_count(key as u8, n);
                if count > 0 {
                    break ;
                }
                key += 1;
            }
        }
        if key < 256 {
            let sum: i64 = self.sums[n];
            let list: Vec<u8> = appended(&self.lower[n], key as u8);
            self.set_lower(list, n);
            self.set_sum(sum - key as i64, n);
        }
    }

    /// Appends the next sample to the list of the largest samples of column
    /// `n` and takes it off the column's sum: `upper` itself where
    /// `upper_count` says that the window holds another sample of that
    /// value, else the largest value below `upper` of which the window
    /// holds a sample. Where there is no such value, nothing changes.
    pub fn get_next_upper(&mut self, n: usize, upper_count: i32, upper: u8)
        requires
            old(self).wf(),
            old(self).primed(),
            n < old(self).data.n_cols,
            old(self).data.counts_within(-(COUNT_LIMIT as int), COUNT_LIMIT as int),
            i64::MIN + 255 <= old(self).sums@[n as int],
        ensures
            final(self).wf(),
            final(self).primed(),
            final(self).data == old(self).data,
            final(self).trim == old(self).trim,
            final(self).len == old(self).len,
            final(self).lower == old(self).lower,
            forall|m: int|
                0 <= m < old(self).data.n_cols && m != n ==> final(self).sums@[m] == old(self).sums@[m] && final(self).upper@[m] == old(self).upper@[m],
            ({
                let w = if upper_count > 0 {
                    upper as int
                } else {
                    prev_nonempty(&old(self).data, n as int, upper as int)
                };
                if w >= 0 {
                    final(self).upper@[n as int]@ == old(self).upper@[n as int]@.push(w as u8)
                        && final(self).sums@[n as int] == old(self).sums@[n as int] - w
                } else {
                    final(self).upper@[n as int] == old(self).upper@[n as int] && final(self).sums@[n as int] == old(self).sums@[n as int]
                }
            }),
    {
        let mut key: usize = upper as usize;
        let mut found: bool = upper_count > 0;
        if !found {
            loop
                invariant_except_break
                    !found,
                    prev_nonempty(&self.data, n as int, upper as int) == prev_nonempty(
                        &self.data,
                        n as int,
                        key as int,
                    ),
                invariant
                    self.wf(),
                    n < self.data.n_cols,
                    self.data.counts_within(-(COUNT_LIMIT as int), COUNT_LIMIT as int),
                    key <= upper,
                ensures
                    key < 256,
                    found ==> key == prev_nonempty(&self.data, n as int, upper as int),
                    !found ==> prev_nonempty(&self.data, n as int, upper as int) == -1,
                decreases key,
            {
                if key == 0 {
                    break ;
                }
                let count: i32 = self.data.get_count((key - 1) as u8, n);
                if count > 0 {
                    key = key - 1;
                    found = true;
                    break ;
                }
                key -= 1;
            }
        }
        if found {
            let sum: i64 = self.sums[n];
            let list: Vec<u8> = appended(&self.upper[n], key as u8);
            self.set_upper(list, n);
            self.set_sum(sum - key as i64, n);
        }
    }

    /// Brings what the engine keeps of column `n` in line with the bank: the
    /// `trim` smallest samples, the `trim` largest, and the sum of the others.
    pub fn refresh(&mut self, n: usize)
        requires
            old(self).wf(),
            old(self).primed(),
            n < old(self).data.n_cols,
            old(self).data.counts_within(0, COUNT_LIMIT as int),
            2 * old(self).trim <= old(self).data.below(n as int, 256),
        ensures
            final(self).wf(),
            final(self).primed(),
            final(self).data == old(self).data,
            final(self).trim == old(self).trim,
            final(self).len == old(self).len,
            final(self).column_consistent(n as int),
            forall|m: int|
                0 <= m < old(self).data.n_cols && m != n ==> final(self).sums@[m] == old(self).sums@[m] && final(self).lower@[m] == old(self).lower@[m] && final(self).upper@[m]
                    == old(self).upper@[m],
    {
        proof {
            lemma_area_bounds(self.data.radius as int);
        }
        let total: i64 = total_count(&self.data, n);
        let lower: Vec<u8> = smallest_samples(&self.data, n, self.trim);
        let upper: Vec<u8> = largest_samples(&self.data, n, self.trim, total);
        let sum: i64 = trimmed_sum(&self.data, n, self.trim as i64, total);
        self.set_sum(sum, n);
        self.set_lower(lower, n);
        self.set_upper(upper, n);
    }

    /// Brings what the engine keeps of every column in line with the bank.
    pub fn refresh_all(&mut self)
        requires
            old(self).wf(),
            old(self).primed(),
            old(self).data.counts_within(0, COUNT_LIMIT as int),
            forall|col: int|
                0 <= col < old(self).data.n_cols ==> 2 * old(self).trim <= #[trigger] old(self).data.below(col, 256),
        ensures
            final(self).wf(),
            final(self).consistent(),
            final(self).data == old(self).data,
            final(self).trim == old(self).trim,
            final(self).len == old(self).len,
    {
        let n_cols: usize = self.data.n_cols;
        let ghost bank = self.data;
        let ghost trim = self.trim;
        let mut n: usize = 0;
        while n < n_cols
            invariant
                self.wf(),
                self.primed(),
                self.data == bank,
                self.trim == trim,
                self.len == old(self).len,
                n_cols == bank.n_cols,
                n <= n_cols,
                bank.counts_within(0, COUNT_LIMIT as int),
                forall|col: int| 0 <= col < n_cols ==> 2 * trim <= #[trigger] bank.below(col, 256),
                forall|m: int| 0 <= m < n ==> #[trigger] self.column_consistent(m),
            decreases n_cols - n,
        {
            let ghost before = *self;
            self.refresh(n);
            proof {
                assert forall|m: int| 0 <= m < n + 1 implies #[trigger] self.column_consistent(
                    m,
                ) by {
                    if m < n {
                        assert(before.column_consistent(m));
                    }
                }
            }
            n += 1;
        }
    }

    /// Takes a row into every column's window where `add` holds, and out of
    /// it otherwise. Where the sums and lists are set, each column's lists
    /// and sum follow its window: afterwards the lists hold the `trim`
    /// smallest and the `trim` largest samples of the new window, and the
    /// sum is that of the others.
    pub fn update(&mut self, row: &Vec<u8>, add: bool)
        requires
            old(self).wf(),
            row@.len() == old(self).data.n_cols + 2 * old(self).data.radius,
            old(self).data.counts_within(-(COUNT_LIMIT as int), COUNT_LIMIT as int),
            old(self).primed() ==> forall|col: int, v: int|
                0 <= col < old(self).data.n_cols && 0 <= v < 256 ==> 0 <= #[trigger] old(self).data.count(col, v) + signed(
                    add,
                    span_count(row@, col, col + old(self).data.size, v),
                ) <= COUNT_LIMIT,
            old(self).primed() ==> forall|col: int|
                0 <= col < old(self).data.n_cols ==> 2 * old(self).trim <= #[trigger] old(self).data.below(col, 256) + signed(add, old(self).data.size as int),
        ensures
            final(self).wf(),
            final(self).data.same_shape(&old(self).data),
            final(self).primed() == old(self).primed(),
            final(self).trim == old(self).trim,
            final(self).len == old(self).len,
            forall|col: int, v: int|
                0 <= col < old(self).data.n_cols && 0 <= v < 256 ==> #[trigger] final(self).data.count(col, v) == old(self).data.count(col, v) + signed(
                    add,
                    span_count(row@, col, col + old(self).data.size, v),
                ),
            forall|col: int, v: int|
                0 <= col < old(self).data.n_cols && 0 <= v < 256 ==> old(self).data.count(col, v)
                    - old(self).data.size <= #[trigger] final(self).data.count(col, v) <= old(self).data.count(col, v) + old(self).data.size,
            forall|col: int|
                0 <= col < old(self).data.n_cols ==> #[trigger] final(self).data.below(col, 256)
                    == old(self).data.below(col, 256) + signed(add, old(self).data.size as int),
            old(self).primed() ==> final(self).consistent(),
    {
        let ghost o = *self;
        let ghost s = row@;
        self.data.update(row, add);
        let n_cols: usize = self.data.n_cols;
        let ghost bank = self.data;
        proof {
            let size = o.data.size as int;
            assert forall|col: int| 0 <= col < n_cols implies #[trigger] bank.below(col, 256)
                == o.data.below(col, 256) + signed(add, size) by {
                lemma_below_update(&o.data, &bank, col, s, col, col + size, add, 256);
                lemma_below_all(s, col);
                lemma_below_all(s, col + size);
            }
        }
        if self.sums.len() != 0 {
            self.refresh_all();
        }
    }
}

/// Writes the mean of every column of the strip in row `y` to `output`
/// where the column lies inside the raster.
pub(crate) fn process_row_mean(
    output: &mut Image,
    hist: &MeanHist,
    n_cols: usize,
    x: u32,
    y: u32,
    c: u8,
    Ghost(img): Ghost<Image>,
)
    requires
        hist.wf(),
        hist.consistent(),
        n_cols == hist.data.n_cols,
        tracks(&hist.data, &img, x as int, y as int, c as int),
        old(output).wf(),
        x < old(output).width,
        y < old(output).height,
        c < old(output).channels,
    ensures
        forall|n: int|
            0 <= n < n_cols ==> #[trigger] hist.sums@[n] == window_trimmed_sum(
                &img,
                x + n,
                y as int,
                c as int,
                hist.data.radius as int,
                2 * hist.trim,
            ),
        final(output).wf(),
        final(output).same_shape(old(output)),
        forall|px: int, py: int, pc: int|
            0 <= px < old(output).width && 0 <= py < old(output).height && 0 <= pc < old(output).channels ==> if py == y && pc == c && x <= px < x + n_cols {
                is_trimmed_mean(
                    &img,
                    px,
                    py,
                    pc,
                    hist.data.radius as int,
                    2 * hist.trim,
                    #[trigger] final(output).at(px, py, pc) as int,
                )
            } else {
                final(output).at(px, py, pc) == old(output).at(px, py, pc)
            },
{
    let ghost r = hist.data.radius as int;
    proof {
        lemma_area_bounds(r);
        lemma_sums_of_window(hist, &img, x as int, y as int, c as int);
    }
    let mut i: usize = 0;
    while i < n_cols
        invariant
            hist.wf(),
            hist.primed(),
            r == hist.data.radius,
            n_cols == hist.data.n_cols,
            i <= n_cols,
            2 * hist.trim + hist.len == window_area(r),
            forall|n: int|
                0 <= n < n_cols ==> #[trigger] hist.sums@[n] == window_trimmed_sum(
                    &img,
                    x + n,
                    y as int,
                    c as int,
                    r,
                    2 * hist.trim,
                ),
            output.wf(),
            output.same_shape(old(output)),
            x < output.width,
            y < output.height,
            c < output.channels,
            forall|px: int, py: int, pc: int|
                0 <= px < output.width && 0 <= py < output.height && 0 <= pc < output.channels
                    ==> if py == y && pc == c && x <= px < x + i {
                    is_trimmed_mean(
                        &img,
                        px,
                        py,
                        pc,
                        r,
                        2 * hist.trim,
                        #[trigger] output.at(px, py, pc) as int,
                    )
                } else {
                    output.at(px, py, pc) == old(output).at(px, py, pc)
                },
        decreases n_cols - i,
    {
        let mean: u8 = hist.get_mean(i);
        proof {
            assert(hist.sums@[i as int] == window_trimmed_sum(
                &img,
                x + i,
                y as int,
                c as int,
                r,
                2 * hist.trim,
            ));
            assert(is_trimmed_mean(&img, x + i, y as int, c as int, r, 2 * hist.trim, mean as int));
        }
        let px: u64 = x as u64 + i as u64;
        if px < output.width as u64 {
            output.set(px as u32, y, c, mean);
        }
        i += 1;
    }
}

/// An engine that is consistent with a bank that tracks the windows of a
/// row holds, for each column, the sum of the samples that remain of the
/// column's window after trimming.
pub proof fn lemma_sums_of_window(hist: &MeanHist, img: &Image, x: int, y: int, c: int)
    requires
        hist.wf(),
        hist.consistent(),
        tracks(&hist.data, img, x, y, c),
    ensures
        forall|n: int|
            0 <= n < hist.data.n_cols ==> #[trigger] hist.sums@[n] == window_trimmed_sum(
                img,
                x + n,
                y,
                c,
                hist.data.radius as int,
                2 * hist.trim,
            ),
{
    let r = hist.data.radius as int;
    assert forall|n: int| 0 <= n < hist.data.n_cols implies #[trigger] hist.sums@[n]
        == window_trimmed_sum(img, x + n, y, c, r, 2 * hist.trim) by {
        assert(hist.column_consistent(n));
        lemma_tracks_below(&hist.data, img, x, y, c, n, 256);
        lemma_rows_bounds(img, x + n, y, c, r, window_side(r), 256);
        lemma_tracks_trimmed(&hist.data, img, x, y, c, n, hist.trim as int, 256);
        assert((2 * hist.trim) / 2 == hist.trim);
    }
}

/// Fills the bank of a fresh engine with the rows of the window centred in
/// row 0, sets up the sums, and writes the trimmed means of row 0.
pub(crate) fn init_cols_mean(
    input: &Image,
    output: &mut Image,
    hist: &mut MeanHist,
    radius: u32,
    n_cols: usize,
    x: u32,
    c: u8,
)
    requires
        input.wf(),
        old(output).wf(),
        old(output).same_shape(input),
        old(hist).wf(),
        old(hist).sums@.len() == 0,
        old(hist).data.radius == radius,
        old(hist).data.n_cols == n_cols,
        forall|col: int, v: int|
            0 <= col < n_cols && 0 <= v < 256 ==> #[trigger] old(hist).data.count(col, v) == 0,
        x < input.width,
        1 <= input.height,
        c < input.channels,
    ensures
        final(hist).wf(),
        final(hist).consistent(),
        final(hist).data.same_shape(&old(hist).data),
        final(hist).trim == old(hist).trim,
        final(hist).len == old(hist).len,
        tracks(&final(hist).data, input, x as int, 0, c as int),
        forall|n: int|
            0 <= n < n_cols ==> #[trigger] final(hist).sums@[n] == window_trimmed_sum(
                input,
                x + n,
                0,
                c as int,
                radius as int,
                2 * old(hist).trim,
            ),
        final(output).wf(),
        final(output).same_shape(old(output)),
        forall|px: int, py: int, pc: int|
            0 <= px < input.width && 0 <= py < input.height && 0 <= pc < input.channels ==> if py
                == 0 && pc == c && x <= px < x + n_cols {
                is_trimmed_mean(
                    input,
                    px,
                    py,
                    pc,
                    radius as int,
                    2 * old(hist).trim,
                    #[trigger] final(output).at(px, py, pc) as int,
                )
            } else {
                final(output).at(px, py, pc) == old(output).at(px, py, pc)
            },
{
    let size: usize = 2 * (radius as usize) + 1;
    let ghost r = radius as int;
    let mut k: usize = 0;
    while k < size
        invariant
            input.wf(),
            hist.wf(),
            hist.sums@.len() == 0,
            hist.trim == old(hist).trim,
            hist.len == old(hist).len,
            hist.data.radius == radius,
            hist.data.n_cols == n_cols,
            hist.data.same_shape(&old(hist).data),
            r == radius,
            size == window_side(r),
            k <= size,
            x < input.width,
            1 <= input.height,
            c < input.channels,
            forall|n: int, v: int|
                0 <= n < n_cols && 0 <= v < 256 ==> #[trigger] hist.data.count(n, v) == rows_count(
                    input,
                    x + n,
                    0,
                    c as int,
                    r,
                    k as int,
                    v,
                ),
        decreases size - k,
    {
        let j: i64 = k as i64 - radius as i64;
        let jj: u32 = if j < 0 {
            0
        } else if j >= input.height as i64 {
            input.height - 1
        } else {
            j as u32
        };
        let row: Vec<u8> = gather_row(input, x, radius, n_cols, jj, c);
        let ghost before = hist.data;
        proof {
            lemma_area_bounds(r);
            assert(k * window_side(r) <= window_side(r) * window_side(r)) by (nonlinear_arith)
                requires
                    0 <= k <= window_side(r),
            ;
            assert forall|n: int, v: int| 0 <= n < n_cols && 0 <= v < 256 implies -COUNT_LIMIT
                <= #[trigger] hist.data.count(n, v) <= COUNT_LIMIT by {
                lemma_rows_bounds(input, x + n, 0, c as int, r, k as int, v);
            }
            lemma_row_clamped(input, x - r, n_cols + 2 * r, j as int, c as int);
        }
        hist.update(&row, true);
        proof {
            assert forall|n: int, v: int| 0 <= n < n_cols && 0 <= v < 256 implies #[trigger] hist.data.count(
                n,
                v,
            ) == rows_count(input, x + n, 0, c as int, r, k + 1, v) by {
                lemma_span_is_line(
                    input,
                    x - r,
                    n_cols + 2 * r,
                    j as int,
                    c as int,
                    r,
                    n,
                    window_side(r),
                    v,
                );
                assert(before.count(n, v) == rows_count(input, x + n, 0, c as int, r, k as int, v));
            }
        }
        k += 1;
    }
    hist.init();
    proof {
        lemma_area_bounds(r);
        assert forall|n: int, v: int| 0 <= n < n_cols && 0 <= v < 256 implies 0
            <= #[trigger] hist.data.count(n, v) <= COUNT_LIMIT by {
            lemma_rows_bounds(input, x + n, 0, c as int, r, window_side(r), v);
        }
        assert forall|n: int| 0 <= n < n_cols implies 2 * hist.trim <= #[trigger] hist.data.below(
            n,
            256,
        ) by {
            lemma_tracks_below(&hist.data, input, x as int, 0, c as int, n, 256);
            lemma_rows_bounds(input, x + n, 0, c as int, r, window_side(r), 256);
        }
    }
    hist.refresh_all();
    process_row_mean(output, hist, n_cols, x, 0, c, Ghost(*input));
}

/// Moves every window of the strip at `x` one row down to row `y`: the row
/// coming into reach enters the engine first, then the row falling out of
/// reach leaves it.
pub(crate) fn slide_rows_mean(input: &Image, hist: &mut MeanHist, radius: u32, n_cols: usize, x: u32, y: u32, c: u8)
    requires
        input.wf(),
        old(hist).wf(),
        old(hist).primed(),
        old(hist).data.radius == radius,
        old(hist).data.n_cols == n_cols,
        tracks(&old(hist).data, input, x as int, y - 1, c as int),
        x < input.width,
        1 <= y < input.height,
        c < input.channels,
    ensures
        final(hist).wf(),
        final(hist).consistent(),
        final(hist).trim == old(hist).trim,
        final(hist).len == old(hist).len,
        final(hist).data.same_shape(&old(hist).data),
        tracks(&final(hist).data, input, x as int, y as int, c as int),
{
    let ghost r = radius as int;
    let ghost len = n_cols + 2 * r;
    let j_in: u32 = if y as u64 + radius as u64 >= input.height as u64 {
        input.height - 1
    } else {
        y + radius
    };
    let j_out: u32 = if y as u64 >= radius as u64 + 1 {
        y - radius - 1
    } else {
        0
    };
    let row_in: Vec<u8> = gather_row(input, x, radius, n_cols, j_in, c);
    let row_out: Vec<u8> = gather_row(input, x, radius, n_cols, j_out, c);
    let ghost start = hist.data;
    proof {
        lemma_area_bounds(r);
        lemma_row_clamped(input, x - r, len, y + r, c as int);
        lemma_row_clamped(input, x - r, len, y - r - 1, c as int);
        assert forall|n: int, v: int| 0 <= n < n_cols && 0 <= v < 256 implies 0
            <= #[trigger] start.count(n, v) <= window_area(r) && 0 <= start.count(n, v)
            + span_count(row_in@, n, n + window_side(r), v) <= COUNT_LIMIT by {
            lemma_rows_bounds(input, x + n, y - 1, c as int, r, window_side(r), v);
            lemma_span_bounds(row_in@, n, n + window_side(r), v);
        }
        assert forall|n: int| 0 <= n < n_cols implies #[trigger] start.below(n, 256)
            == window_area(r) by {
            lemma_tracks_below(&start, input, x as int, y - 1, c as int, n, 256);
            lemma_rows_bounds(input, x + n, y - 1, c as int, r, window_side(r), 256);
        }
    }
    hist.update(&row_in, true);
    let ghost mid = hist.data;
    proof {
        assert forall|n: int, v: int| 0 <= n < n_cols && 0 <= v < 256 implies #[trigger] mid.count(
            n,
            v,
        ) - span_count(row_out@, n, n + window_side(r), v) == window_count(
            input,
            x + n,
            y as int,
            c as int,
            r,
            v,
        ) && 0 <= mid.count(n, v) - span_count(row_out@, n, n + window_side(r), v)
            <= COUNT_LIMIT by {
            lemma_span_is_line(input, x - r, len, y + r, c as int, r, n, window_side(r), v);
            lemma_span_is_line(input, x - r, len, y - r - 1, c as int, r, n, window_side(r), v);
            lemma_rows_slide(input, x + n, y as int, c as int, r, window_side(r), v);
            lemma_rows_bounds(input, x + n, y as int, c as int, r, window_side(r), v);
            assert(start.count(n, v) == window_count(input, x + n, y - 1, c as int, r, v));
            assert(mid.count(n, v) == start.count(n, v) + span_count(
                row_in@,
                n,
                n + window_side(r),
                v,
            ));
        }
        assert forall|n: int| 0 <= n < n_cols implies #[trigger] mid.below(n, 256)
            == window_area(r) + window_side(r) by {
            assert(start.below(n, 256) == window_area(r));
        }
    }
    hist.update(&row_out, false);
    proof {
        assert forall|n: int, v: int| 0 <= n < n_cols && 0 <= v < 256 implies #[trigger] hist.data.count(
            n,
            v,
        ) == window_count(input, x + n, y as int, c as int, r, v) by {
            assert(mid.count(n, v) - span_count(row_out@, n, n + window_side(r), v)
                == window_count(input, x + n, y as int, c as int, r, v));
        }
    }
}

/// Filters channel `c` of the columns `[x, x + n_cols)`.
pub(crate) fn process_channel_mean(
    input: &Image,
    output: &mut Image,
    radius: u32,
    alpha: u32,
    n_cols: usize,
    x: u32,
    c: u8,
)
    requires
        input.wf(),
        old(output).wf(),
        old(output).same_shape(input),
        radius <= MAX_RADIUS,
        n_cols <= MAX_STRIP,
        n_cols % 2 == 1,
        alpha % 2 == 0,
        alpha < window_area(radius as int),
        x < input.width,
        1 <= input.height,
        c < input.channels,
    ensures
        final(output).wf(),
        final(output).same_shape(input),
        forall|px: int, py: int, pc: int|
            0 <= px < input.width && 0 <= py < input.height && 0 <= pc < input.channels ==> if pc
                == c && x <= px < x + n_cols {
                is_trimmed_mean(
                    input,
                    px,
                    py,
                    pc,
                    radius as int,
                    alpha as int,
                    #[trigger] final(output).at(px, py, pc) as int,
                )
            } else {
                final(output).at(px, py, pc) == old(output).at(px, py, pc)
            },
{
    let mut hist = MeanHist::new(radius as usize, n_cols, alpha);
    init_cols_mean(input, output, &mut hist, radius, n_cols, x, c);
    let height: u32 = input.height;
    let mut j: u32 = 1;
    while j < height
        invariant
            input.wf(),
            output.wf(),
            output.same_shape(input),
            hist.wf(),
            hist.consistent(),
            hist.data.radius == radius,
            hist.data.n_cols == n_cols,
            2 * hist.trim == alpha,
            radius <= MAX_RADIUS,
            height == input.height,
            1 <= j <= height,
            x < input.width,
            c < input.channels,
            tracks(&hist.data, input, x as int, j - 1, c as int),
            forall|px: int, py: int, pc: int|
                0 <= px < input.width && 0 <= py < input.height && 0 <= pc < input.channels ==> if pc
                    == c && x <= px < x + n_cols && py < j {
                    is_trimmed_mean(
                        input,
                        px,
                        py,
                        pc,
                        radius as int,
                        alpha as int,
                        #[trigger] output.at(px, py, pc) as int,
                    )
                } else {
                    output.at(px, py, pc) == old(output).at(px, py, pc)
                },
        decreases height - j,
    {
        slide_rows_mean(input, &mut hist, radius, n_cols, x, j, c);
        process_row_mean(output, &hist, n_cols, x, j, c, Ghost(*input));
        j += 1;
    }
}

/// Filters every channel of the columns `[x, x + n_cols)`.
pub(crate) fn process_cols_mean(
    input: &Image,
    output: &mut Image,
    radius: u32,
    alpha: u32,
    n_cols: usize,
    x: u32,
)
    requires
        input.wf(),
        old(output).wf(),
        old(output).same_shape(input),
        radius <= MAX_RADIUS,
        n_cols <= MAX_STRIP,
        n_cols % 2 == 1,
        alpha % 2 == 0,
        alpha < window_area(radius as int),
        x < input.width,
        1 <= input.height,
    ensures
        final(output).wf(),
        final(output).same_shape(input),
        forall|px: int, py: int, pc: int|
            0 <= px < input.width && 0 <= py < input.height && 0 <= pc < input.channels ==> if x
                <= px < x + n_cols {
                is_trimmed_mean(
                    input,
                    px,
                    py,
                    pc,
                    radius as int,
                    alpha as int,
                    #[trigger] final(output).at(px, py, pc) as int,
                )
            } else {
                final(output).at(px, py, pc) == old(output).at(px, py, pc)
            },
{
    let channels: u8 = input.channels;
    let mut c: u8 = 0;
    while c < channels
        invariant
            input.wf(),
            output.wf(),
            output.same_shape(input),
            radius <= MAX_RADIUS,
            n_cols <= MAX_STRIP,
            n_cols % 2 == 1,
            alpha % 2 == 0,
            alpha < window_area(radius as int),
            x < input.width,
            1 <= input.height,
            channels == input.channels,
            c <= channels,
            forall|px: int, py: int, pc: int|
                0 <= px < input.width && 0 <= py < input.height && 0 <= pc < input.channels ==> if x
                    <= px < x + n_cols && pc < c {
                    is_trimmed_mean(
                        input,
                        px,
                        py,
                        pc,
                        radius as int,
                        alpha as int,
                        #[trigger] output.at(px, py, pc) as int,
                    )
                } else {
                    output.at(px, py, pc) == old(output).at(px, py, pc)
                },
        decreases channels - c,
    {
        process_channel_mean(input, output, radius, alpha, n_cols, x, c);
        c += 1;
    }
}

/// Every sample of `output` is the alpha-trimmed mean of the window of
/// radius `radius` centred at its pixel in the same channel of `input`.
pub open spec fn mean_filtered(input: &Image, radius: int, alpha: int, output: &Image) -> bool {
    &&& output.wf()
    &&& output.same_shape(input)
    &&& output.data@.len() == input.data@.len()
    &&& forall|px: int, py: int, pc: int|
        0 <= px < input.width && 0 <= py < input.height && 0 <= pc < input.channels
            ==> is_trimmed_mean(
            input,
            px,
            py,
            pc,
            radius,
            alpha,
            #[trigger] output.at(px, py, pc) as int,
        )
}

/// The fault, if any, in the arguments of the alpha-trimmed-mean filter: a
/// radius above `MAX_RADIUS`, an `alpha` that is not less than the number of
/// samples in a window, or an odd `alpha`, in this order.
pub open spec fn mean_fault(radius: int, alpha: int) -> Option<ArgFault> {
    if radius > MAX_RADIUS {
        Some(ArgFault::RadiusTooLarge)
    } else if alpha >= window_area(radius) {
        Some(ArgFault::AlphaTooLarge)
    } else if alpha % 2 != 0 {
        Some(ArgFault::AlphaOdd)
    } else {
        None
    }
}

/// The alpha-trimmed-mean filter, swept in strips of `n_cols` columns. The
/// result does not depend on `n_cols`; the time taken does. An even width
/// and a width above `MAX_STRIP` are rejected after the faults of the other
/// arguments.
pub fn alpha_trimmed_mean_filter_with_strip_width(
    input: &Image,
    radius: u32,
    alpha: u32,
    n_cols: usize,
) -> (r: Result<Image, ImgProcError>)
    requires
        input.wf(),
    ensures
        match r {
            Ok(output) => mean_fault(radius as int, alpha as int) is None && n_cols % 2 == 1
                && n_cols <= MAX_STRIP && mean_filtered(input, radius as int, alpha as int, &output),
            Err(e) => e == ImgProcError::InvalidArgError(
                match mean_fault(radius as int, alpha as int) {
                    Some(fault) => fault,
                    None => if n_cols % 2 == 0 {
                        ArgFault::StripWidthEven
                    } else {
                        ArgFault::StripWidthTooLarge
                    },
                },
            ) && (mean_fault(radius as int, alpha as int) is Some || n_cols % 2 == 0 || n_cols
                > MAX_STRIP),
        },
{
    if radius as usize > MAX_RADIUS {
        return Err(ImgProcError::InvalidArgError(ArgFault::RadiusTooLarge));
    }
    let size: u32 = 2 * radius + 1;
    proof {
        lemma_area_bounds(radius as int);
        assert(size * size == window_area(radius as int)) by (nonlinear_arith)
            requires
                size == window_side(radius as int),
                window_area(radius as int) == window_side(radius as int) * window_side(
                    radius as int,
                ),
        ;
    }
    if alpha >= size * size {
        return Err(ImgProcError::InvalidArgError(ArgFault::AlphaTooLarge));
    }
    if alpha % 2 != 0 {
        return Err(ImgProcError::InvalidArgError(ArgFault::AlphaOdd));
    }
    if n_cols % 2 == 0 {
        return Err(ImgProcError::InvalidArgError(ArgFault::StripWidthEven));
    }
    if n_cols > MAX_STRIP {
        return Err(ImgProcError::InvalidArgError(ArgFault::StripWidthTooLarge));
    }
    let mut output = input.blank_like();
    if input.height == 0 {
        return Ok(output);
    }
    let width: u32 = input.width;
    let mut x: u32 = 0;
    while x < width
        invariant
            input.wf(),
            output.wf(),
            output.same_shape(input),
            radius <= MAX_RADIUS,
            n_cols <= MAX_STRIP,
            n_cols % 2 == 1,
            alpha % 2 == 0,
            alpha < window_area(radius as int),
            1 <= input.height,
            width == input.width,
            forall|px: int, py: int, pc: int|
                0 <= px < input.width && 0 <= py < input.height && 0 <= pc < input.channels && px
                    < x ==> is_trimmed_mean(
                    input,
                    px,
                    py,
                    pc,
                    radius as int,
                    alpha as int,
                    #[trigger] output.at(px, py, pc) as int,
                ),
        decreases width - x,
    {
        let ghost before = output;
        process_cols_mean(input, &mut output, radius, alpha, n_cols, x);
        proof {
            assert forall|px: int, py: int, pc: int|
                0 <= px < input.width && 0 <= py < input.height && 0 <= pc < input.channels && px
                    < x + n_cols implies is_trimmed_mean(
                input,
                px,
                py,
                pc,
                radius as int,
                alpha as int,
                #[trigger] output.at(px, py, pc) as int,
            ) by {
                if px < x {
                    assert(output.at(px, py, pc) == before.at(px, py, pc));
                }
            }
        }
        if (width - x) as usize <= n_cols {
            x = width;
        } else {
            x = x + n_cols as u32;
        }
    }
    Ok(output)
}

/// The alpha-trimmed-mean filter: each sample of the result is the mean of
/// the samples that remain of the `(2 * radius + 1)` by `(2 * radius + 1)`
/// window centred at its pixel, in the same channel of `input`, once the
/// `alpha / 2` smallest and the `alpha / 2` largest are set aside; pixels
/// outside the raster are read at the nearest pixel inside it.
pub fn alpha_trimmed_mean_filter(input: &Image, radius: u32, alpha: u32) -> (r: Result<
    Image,
    ImgProcError,
>)
    requires
        input.wf(),
    ensures
        match r {
            Ok(output) => mean_fault(radius as int, alpha as int) is None && mean_filtered(
                input,
                radius as int,
                alpha as int,
                &output,
            ),
            Err(e) => mean_fault(radius as int, alpha as int) == Some(e->InvalidArgError_0),
        },
{
    if radius as usize > MAX_RADIUS {
        return Err(ImgProcError::InvalidArgError(ArgFault::RadiusTooLarge));
    }
    let n_cols: usize = strip_width(radius);
    alpha_trimmed_mean_filter_with_strip_width(input, radius, alpha, n_cols)
}

} // verus!
