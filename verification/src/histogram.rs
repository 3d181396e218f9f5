//! The partial-histogram bank of one strip and one channel.
//!
//! The central column of the strip keeps the full histogram of its window.
//! Every other column keeps only what its window holds more, or less, than the
//! central one, so a bin of such a column may be negative.

use vstd::prelude::*;
use crate::window::{indicator, prefix_below, prefix_count, signed, span_below, span_count,
    lemma_prefix_below_step};

verus! {

/// Largest radius the filters accept. It is the library's own limit: the
/// largest radius for which a window, and a row entering it, can be counted
/// in a bank's 32-bit bins with `COUNT_LIMIT` as their bound.
pub const MAX_RADIUS: usize = 11584;

/// Largest strip width a bank can be made with.
pub const MAX_STRIP: usize = 4095;

/// Largest count, in absolute value, that a bank may hold when a row is applied to it.
pub const COUNT_LIMIT: i32 = 0x2000_0000;

/// Per-column histograms of 256 bins each for a strip of `n_cols` columns.
pub struct PartialHistograms {
    pub data: Vec<i32>,
    pub n_cols: usize,
    pub n_half: usize,
    pub radius: usize,
    pub size: usize,
}

/// What a column left of the centre holds more than the centre, once the rows
/// `[col, upto)` of the difference are taken in.
pub open spec fn lower_delta(row: Seq<u8>, col: int, upto: int, size: int, v: int) -> int {
    span_count(row, col, upto, v) - span_count(row, col + size, upto + size, v)
}

/// What a column right of the centre holds more than the centre, once the
/// positions `[from, col)` of the difference are taken in.
pub open spec fn upper_delta(row: Seq<u8>, from: int, col: int, size: int, v: int) -> int {
    span_count(row, from + size, col + size, v) - span_count(row, from, col, v)
}

/// One more sample in a prefix adds one to the count of its value and nothing to any other.
pub proof fn lemma_prefix_step(row: Seq<u8>, k: int, v: int)
    requires
        0 <= k,
    ensures
        prefix_count(row, k + 1, v) == prefix_count(row, k, v) + indicator(row[k] as int == v),
        prefix_below(row, k + 1, v) == prefix_below(row, k, v) + indicator((row[k] as int) < v),
{
}

/// A stretch of a row holds no more samples than its length, of any kind.
pub proof fn lemma_span_bounds(row: Seq<u8>, a: int, b: int, v: int)
    requires
        0 <= a <= b,
    ensures
        0 <= span_count(row, a, b, v) <= b - a,
        0 <= span_below(row, a, b, v) <= b - a,
    decreases b - a,
{
    if a < b {
        lemma_span_bounds(row, a, b - 1, v);
    }
}

impl PartialHistograms {
    /// The strip is odd and bounded, the side belongs to the radius, and there are 256 bins a column.
    pub open spec fn wf(&self) -> bool {
        &&& self.n_cols % 2 == 1
        &&& self.n_cols <= MAX_STRIP
        &&& self.n_half == self.n_cols / 2
        &&& self.radius <= MAX_RADIUS
        &&& self.size == 2 * self.radius + 1
        &&& self.data@.len() == self.n_cols * 256
    }

    /// Same strip width and radius.
    pub open spec fn same_shape(&self, other: &PartialHistograms) -> bool {
        &&& self.n_cols == other.n_cols
        &&& self.n_half == other.n_half
        &&& self.radius == other.radius
        &&& self.size == other.size
    }

    /// The stored bin of value `v` in column `col`; a difference unless `col` is the centre.
    pub open spec fn bin(&self, col: int, v: int) -> int {
        self.data@[col * 256 + v] as int
    }

    /// Number of samples of value `v` in the window of column `col`.
    pub open spec fn count(&self, col: int, v: int) -> int {
        self.bin(self.n_half as int, v) + if col == self.n_half {
            0
        } else {
            self.bin(col, v)
        }
    }

    /// Number of samples of a value less than `p` in the window of column `col`.
    pub open spec fn below(&self, col: int, p: int) -> int
        decreases p,
    {
        if p <= 0 {
            0
        } else {
            self.below(col, p - 1) + self.count(col, p - 1)
        }
    }

    /// Every count of every column lies in `[lo, hi]`.
    pub open spec fn counts_within(&self, lo: int, hi: int) -> bool {
        forall|col: int, v: int|
            0 <= col < self.n_cols && 0 <= v < 256 ==> lo <= #[trigger] self.count(col, v) <= hi
    }

    /// An empty bank for a strip of `n_cols` columns.
    pub fn new(radius: usize, n_cols: usize) -> (r: Self)
        requires
            radius <= MAX_RADIUS,
            n_cols <= MAX_STRIP,
            n_cols % 2 == 1,
        ensures
            r.wf(),
            r.radius == radius,
            r.n_cols == n_cols,
            forall|col: int, v: int|
                0 <= col < n_cols && 0 <= v < 256 ==> #[trigger] r.count(col, v) == 0,
    {
        let size: usize = 2 * radius + 1;
        let n_half: usize = n_cols / 2;
        let r = PartialHistograms { data: vec![0i32; n_cols * 256], n_cols, n_half, radius, size };
        assert forall|col: int, v: int| 0 <= col < n_cols && 0 <= v < 256 implies #[trigger] r.count(
            col,
            v,
        ) == 0 by {
            assert(r.bin(col, v) == 0);
            assert(r.bin(n_half as int, v) == 0);
        }
        r
    }

    /// Adds `delta` to one stored bin.
    fn bump(&mut self, col: usize, v: u8, delta: i32)
        requires
            old(self).wf(),
            col < old(self).n_cols,
            i32::MIN <= old(self).bin(col as int, v as int) + delta <= i32::MAX,
        ensures
            final(self).wf(),
            final(self).same_shape(old(self)),
            final(self).data@ == old(self).data@.update(
                col * 256 + v,
                (old(self).bin(col as int, v as int) + delta) as i32,
            ),
    {
        let k: usize = col * 256 + v as usize;
        let cur: i32 = self.data[k];
        self.data.set(k, cur + delta);
    }

    /// Takes the row `row` into every column's window where `add` holds, and
    /// out of it otherwise. `row` spans the strip and a halo of `radius`
    /// samples on either side, so the window of column `col` sees the samples
    /// at positions `[col, col + size)`.
    pub fn update(&mut self, row: &Vec<u8>, add: bool)
        requires
            old(self).wf(),
            row@.len() == old(self).n_cols + 2 * old(self).radius,
            old(self).counts_within(-(COUNT_LIMIT as int), COUNT_LIMIT as int),
        ensures
            final(self).wf(),
            final(self).same_shape(old(self)),
            forall|col: int, v: int|
                0 <= col < old(self).n_cols && 0 <= v < 256 ==> #[trigger] final(self).count(col, v)
                    == old(self).count(col, v) + signed(
                    add,
                    span_count(row@, col, col + old(self).size, v),
                ),
            forall|col: int, v: int|
                0 <= col < old(self).n_cols && 0 <= v < 256 ==> old(self).count(col, v) - old(self).size <= #[trigger] final(self).count(col, v) <= old(self).count(col, v) + old(self).size,
    {
        let ghost o = *self;
        let ghost s = row@;
        let inc: i32 = if add {
            1
        } else {
            -1
        };
        let n_half: usize = self.n_half;
        let n_cols: usize = self.n_cols;
        let size: usize = self.size;
        let radius: usize = self.radius;
        proof {
            assert forall|col: int, v: int| 0 <= col < n_cols && 0 <= v < 256 implies -2
                * COUNT_LIMIT <= #[trigger] o.bin(col, v) <= 2 * COUNT_LIMIT by {
                assert(-COUNT_LIMIT <= o.count(col, v) <= COUNT_LIMIT);
                assert(-COUNT_LIMIT <= o.count(n_half as int, v) <= COUNT_LIMIT);
            }
        }
        let mut n: usize = 0;
        while n < n_half
            invariant
                self.wf(),
                self.same_shape(&o),
                o.wf(),
                n_half == o.n_half,
                n_cols == o.n_cols,
                size == o.size,
                radius == o.radius,
                s == row@,
                s.len() == n_cols + 2 * radius,
                inc == signed(add, 1),
                n <= n_half,
                forall|col: int, v: int|
                    0 <= col < n_cols && 0 <= v < 256 ==> -2 * COUNT_LIMIT <= #[trigger] o.bin(col, v)
                        <= 2 * COUNT_LIMIT,
                forall|col: int, v: int|
                    n <= col < n_cols - n && 0 <= v < 256 ==> #[trigger] self.bin(col, v) == o.bin(
                        col,
                        v,
                    ),
                forall|col: int, v: int|
                    0 <= col < n && 0 <= v < 256 ==> #[trigger] self.bin(col, v) == o.bin(col, v)
                        + signed(add, lower_delta(s, col, n_half as int, size as int, v)),
                forall|col: int, v: int|
                    n_cols - n <= col < n_cols && 0 <= v < 256 ==> #[trigger] self.bin(col, v)
                        == o.bin(col, v) + signed(
                        add,
                        upper_delta(s, n_half as int, col, size as int, v),
                    ),
            decreases n_half - n,
        {
            let n_upper: usize = n_cols - n - 1;
            let mut i: usize = n;
            while i < n_half
                invariant
                    self.wf(),
                    self.same_shape(&o),
                    o.wf(),
                    n_half == o.n_half,
                    n_cols == o.n_cols,
                    size == o.size,
                    radius == o.radius,
                    s == row@,
                    s.len() == n_cols + 2 * radius,
                    inc == signed(add, 1),
                    n < n_half,
                    n <= i <= n_half,
                    n_upper == n_cols - n - 1,
                    forall|col: int, v: int|
                        0 <= col < n_cols && 0 <= v < 256 ==> -2 * COUNT_LIMIT <= #[trigger] o.bin(
                            col,
                            v,
                        ) <= 2 * COUNT_LIMIT,
                    forall|col: int, v: int|
                        n < col < n_upper && 0 <= v < 256 ==> #[trigger] self.bin(col, v) == o.bin(
                            col,
                            v,
                        ),
                    forall|col: int, v: int|
                        0 <= col < n && 0 <= v < 256 ==> #[trigger] self.bin(col, v) == o.bin(col, v)
                            + signed(add, lower_delta(s, col, n_half as int, size as int, v)),
                    forall|col: int, v: int|
                        n_upper < col < n_cols && 0 <= v < 256 ==> #[trigger] self.bin(col, v)
                            == o.bin(col, v) + signed(
                            add,
                            upper_delta(s, n_half as int, col, size as int, v),
                        ),
                    forall|v: int|
                        0 <= v < 256 ==> #[trigger] self.bin(n as int, v) == o.bin(n as int, v)
                            + signed(add, lower_delta(s, n as int, i as int, size as int, v)),
                    forall|v: int|
                        0 <= v < 256 ==> #[trigger] self.bin(n_upper as int, v) == o.bin(
                            n_upper as int,
                            v,
                        ) + signed(
                            add,
                            upper_delta(s, n_cols - i - 1, n_upper as int, size as int, v),
                        ),
                decreases n_half - i,
            {
                let i_upper: usize = n_cols + 2 * radius - i - 1;
                let i_lower: usize = i_upper - size;
                let ghost before = *self;
                proof {
                    assert(i_lower == n_cols - i - 2);
                    assert forall|v: int| 0 <= v < 256 implies -(n_half as int) <= #[trigger] lower_delta(
                        s,
                        n as int,
                        i as int,
                        size as int,
                        v,
                    ) <= n_half as int by {
                        lemma_span_bounds(s, n as int, i as int, v);
                        lemma_span_bounds(s, n + size, i + size, v);
                    }
                    assert forall|v: int| 0 <= v < 256 implies -(n_half as int) <= #[trigger] upper_delta(
                        s,
                        n_cols - i - 1,
                        n_upper as int,
                        size as int,
                        v,
                    ) <= n_half as int by {
                        lemma_span_bounds(s, n_cols - i - 1, n_upper as int, v);
                        lemma_span_bounds(s, n_cols - i - 1 + size, n_upper + size, v);
                    }
                    assert(self.bin(n as int, row@[i as int] as int) == o.bin(
                        n as int,
                        row@[i as int] as int,
                    ) + signed(
                        add,
                        lower_delta(s, n as int, i as int, size as int, row@[i as int] as int),
                    ));
                    assert(self.bin(n as int, row@[i + size] as int) == o.bin(
                        n as int,
                        row@[i + size] as int,
                    ) + signed(
                        add,
                        lower_delta(s, n as int, i as int, size as int, row@[i + size] as int),
                    ));
                    assert(self.bin(n_upper as int, row@[i_lower as int] as int) == o.bin(
                        n_upper as int,
                        row@[i_lower as int] as int,
                    ) + signed(
                        add,
                        upper_delta(
                            s,
                            n_cols - i - 1,
                            n_upper as int,
                            size as int,
                            row@[i_lower as int] as int,
                        ),
                    ));
                    assert(self.bin(n_upper as int, row@[i_upper as int] as int) == o.bin(
                        n_upper as int,
                        row@[i_upper as int] as int,
                    ) + signed(
                        add,
                        upper_delta(
                            s,
                            n_cols - i - 1,
                            n_upper as int,
                            size as int,
                            row@[i_upper as int] as int,
                        ),
                    ));
                }
                self.bump(n, row[i], inc);
                self.bump(n, row[i + size], -inc);
                self.bump(n_upper, row[i_lower], -inc);
                self.bump(n_upper, row[i_upper], inc);
                proof {
                    assert forall|v: int| 0 <= v < 256 implies #[trigger] self.bin(n as int, v)
                        == o.bin(n as int, v) + signed(
                        add,
                        lower_delta(s, n as int, i + 1, size as int, v),
                    ) by {
                        lemma_prefix_step(s, i as int, v);
                        lemma_prefix_step(s, i + size, v);
                        assert(before.bin(n as int, v) == o.bin(n as int, v) + signed(
                            add,
                            lower_delta(s, n as int, i as int, size as int, v),
                        ));
                    }
                    assert forall|v: int| 0 <= v < 256 implies #[trigger] self.bin(
                        n_upper as int,
                        v,
                    ) == o.bin(n_upper as int, v) + signed(
                        add,
                        upper_delta(s, n_cols - (i + 1) - 1, n_upper as int, size as int, v),
                    ) by {
                        lemma_prefix_step(s, i_lower as int, v);
                        lemma_prefix_step(s, i_upper as int, v);
                        assert(before.bin(n_upper as int, v) == o.bin(n_upper as int, v) + signed(
                            add,
                            upper_delta(s, n_cols - i - 1, n_upper as int, size as int, v),
                        ));
                    }
                    assert forall|col: int, v: int|
                        0 <= col < n_cols && 0 <= v < 256 && col != n && col
                            != n_upper implies #[trigger] self.bin(col, v) == before.bin(col, v) by {}
                }
                i += 1;
            }
            proof {
                assert(n_cols - n_half - 1 == n_half);
            }
            n += 1;
        }
        let mut i: usize = n_half;
        while i < n_half + size
            invariant
                self.wf(),
                self.same_shape(&o),
                o.wf(),
                n_half == o.n_half,
                n_cols == o.n_cols,
                size == o.size,
                radius == o.radius,
                s == row@,
                s.len() == n_cols + 2 * radius,
                inc == signed(add, 1),
                n_half <= i <= n_half + size,
                forall|col: int, v: int|
                    0 <= col < n_cols && 0 <= v < 256 ==> -2 * COUNT_LIMIT <= #[trigger] o.bin(col, v)
                        <= 2 * COUNT_LIMIT,
                forall|v: int|
                    0 <= v < 256 ==> #[trigger] self.bin(n_half as int, v) == o.bin(n_half as int, v)
                        + signed(add, span_count(s, n_half as int, i as int, v)),
                forall|col: int, v: int|
                    0 <= col < n_half && 0 <= v < 256 ==> #[trigger] self.bin(col, v) == o.bin(col, v)
                        + signed(add, lower_delta(s, col, n_half as int, size as int, v)),
                forall|col: int, v: int|
                    n_half < col < n_cols && 0 <= v < 256 ==> #[trigger] self.bin(col, v) == o.bin(
                        col,
                        v,
                    ) + signed(add, upper_delta(s, n_half as int, col, size as int, v)),
            decreases n_half + size - i,
        {
            let ghost before = *self;
            proof {
                lemma_span_bounds(s, n_half as int, i as int, row@[i as int] as int);
                assert(self.bin(n_half as int, row@[i as int] as int) == o.bin(
                    n_half as int,
                    row@[i as int] as int,
                ) + signed(add, span_count(s, n_half as int, i as int, row@[i as int] as int)));
            }
            self.bump(n_half, row[i], inc);
            proof {
                assert forall|v: int| 0 <= v < 256 implies #[trigger] self.bin(n_half as int, v)
                    == o.bin(n_half as int, v) + signed(
                    add,
                    span_count(s, n_half as int, i + 1, v),
                ) by {
                    lemma_prefix_step(s, i as int, v);
                    assert(before.bin(n_half as int, v) == o.bin(n_half as int, v) + signed(
                        add,
                        span_count(s, n_half as int, i as int, v),
                    ));
                }
                assert forall|col: int, v: int|
                    0 <= col < n_cols && 0 <= v < 256 && col != n_half implies #[trigger] self.bin(
                    col,
                    v,
                ) == before.bin(col, v) by {}
            }
            i += 1;
        }
        proof {
            assert forall|col: int, v: int| 0 <= col < n_cols && 0 <= v < 256 implies #[trigger] self.count(
                col,
                v,
            ) == o.count(col, v) + signed(add, span_count(s, col, col + size, v)) by {
                assert(self.bin(n_half as int, v) == o.bin(n_half as int, v) + signed(
                    add,
                    span_count(s, n_half as int, n_half + size, v),
                ));
                if col < n_half {
                    assert(self.bin(col, v) == o.bin(col, v) + signed(
                        add,
                        lower_delta(s, col, n_half as int, size as int, v),
                    ));
                } else if col > n_half {
                    assert(self.bin(col, v) == o.bin(col, v) + signed(
                        add,
                        upper_delta(s, n_half as int, col, size as int, v),
                    ));
                }
            }
            assert forall|col: int, v: int| 0 <= col < n_cols && 0 <= v < 256 implies o.count(col, v)
                - size <= #[trigger] self.count(col, v) <= o.count(col, v) + size by {
                lemma_span_bounds(s, col, col + size, v);
                assert(self.count(col, v) == o.count(col, v) + signed(
                    add,
                    span_count(s, col, col + size, v),
                ));
            }
        }
    }

    /// Number of samples of value `key` in the window of column `index`.
    pub fn get_count(&self, key: u8, index: usize) -> (r: i32)
        requires
            self.wf(),
            index < self.n_cols,
            self.counts_within(-(COUNT_LIMIT as int), COUNT_LIMIT as int),
        ensures
            r == self.count(index as int, key as int),
    {
        proof {
            assert(-COUNT_LIMIT <= self.count(index as int, key as int) <= COUNT_LIMIT);
            assert(-COUNT_LIMIT <= self.count(self.n_half as int, key as int) <= COUNT_LIMIT);
        }
        let mut count: i32 = self.data[self.n_half * 256 + key as usize];
        if index != self.n_half {
            count += self.data[index * 256 + key as usize];
        }
        count
    }
}

/// Where every count of a column moves by what a stretch of a row holds of
/// its value, the number of samples below a threshold moves by what the
/// stretch holds below it.
pub proof fn lemma_below_update(
    before: &PartialHistograms,
    after: &PartialHistograms,
    col: int,
    row: Seq<u8>,
    a: int,
    b: int,
    add: bool,
    p: int,
)
    requires
        0 <= p <= 256,
        before.n_half == after.n_half,
        forall|v: int|
            0 <= v < 256 ==> #[trigger] after.count(col, v) == before.count(col, v) + signed(
                add,
                span_count(row, a, b, v),
            ),
    ensures
        after.below(col, p) == before.below(col, p) + signed(add, span_below(row, a, b, p)),
    decreases p,
{
    if p > 0 {
        lemma_below_update(before, after, col, row, a, b, add, p - 1);
        lemma_prefix_below_step(row, a, p);
        lemma_prefix_below_step(row, b, p);
        assert(after.count(col, p - 1) == before.count(col, p - 1) + signed(
            add,
            span_count(row, a, b, p - 1),
        ));
    } else {
        lemma_below_zero(row, a);
        lemma_below_zero(row, b);
    }
}

/// No sample is below zero.
pub proof fn lemma_below_zero(row: Seq<u8>, k: int)
    ensures
        prefix_below(row, k, 0) == 0,
    decreases k,
{
    if k > 0 {
        lemma_below_zero(row, k - 1);
    }
}

/// Every sample is below 256.
pub proof fn lemma_below_all(row: Seq<u8>, k: int)
    requires
        0 <= k,
    ensures
        prefix_below(row, k, 256) == k,
    decreases k,
{
    if k > 0 {
        lemma_below_all(row, k - 1);
    }
}

} // verus!
