//! The raster: a row-major, channel-interleaved buffer of 8-bit samples.

use vstd::prelude::*;

verus! {

/// The nearest index inside `[0, n)` to `i`.
pub open spec fn clamp_index(i: int, n: int) -> int {
    if i < 0 {
        0
    } else if i >= n {
        n - 1
    } else {
        i
    }
}

/// An image of `width` by `height` pixels with `channels` samples each.
pub struct Image {
    pub width: u32,
    pub height: u32,
    pub channels: u8,
    pub alpha: bool,
    pub data: Vec<u8>,
}

/// Position of a sample in a buffer of row length `width` and `channels` samples a pixel.
pub open spec fn sample_offset(width: int, channels: int, x: int, y: int, c: int) -> int {
    (y * width + x) * channels + c
}

/// Every sample of a `width` by `height` raster has its own place inside the buffer.
pub proof fn lemma_offset_in_range(width: int, height: int, channels: int, x: int, y: int, c: int)
    requires
        0 <= x < width,
        0 <= y < height,
        0 <= c < channels,
    ensures
        0 <= sample_offset(width, channels, x, y, c) < width * height * channels,
{
    assert(y * width + x < height * width) by (nonlinear_arith)
        requires
            0 <= x < width,
            0 <= y < height,
    ;
    assert(0 <= y * width + x) by (nonlinear_arith)
        requires
            0 <= x < width,
            0 <= y < height,
    ;
    let p = y * width + x;
    assert(0 <= p * channels + c < width * height * channels) by (nonlinear_arith)
        requires
            0 <= p < height * width,
            0 <= c < channels,
    ;
}

/// Two samples share a place in the buffer only if they are the same sample.
pub proof fn lemma_offset_injective(
    width: int,
    channels: int,
    x1: int,
    y1: int,
    c1: int,
    x2: int,
    y2: int,
    c2: int,
)
    requires
        0 <= x1 < width,
        0 <= x2 < width,
        0 <= c1 < channels,
        0 <= c2 < channels,
        sample_offset(width, channels, x1, y1, c1) == sample_offset(width, channels, x2, y2, c2),
    ensures
        x1 == x2 && y1 == y2 && c1 == c2,
{
    let first = y1 * width + x1;
    let second = y2 * width + x2;
    assert(first == second && c1 == c2) by (nonlinear_arith)
        requires
            0 <= c1 < channels,
            0 <= c2 < channels,
            first * channels + c1 == second * channels + c2,
    ;
    assert(y1 == y2 && x1 == x2) by (nonlinear_arith)
        requires
            0 <= x1 < width,
            0 <= x2 < width,
            y1 * width + x1 == y2 * width + x2,
    ;
}

impl Image {
    /// The buffer holds exactly one sample per pixel and channel, and a pixel has one to four channels.
    pub open spec fn wf(&self) -> bool {
        &&& 1 <= self.channels <= 4
        &&& self.data@.len() == self.width as int * self.height as int * self.channels as int
    }

    /// The sample of channel `c` at pixel `(x, y)`, for a pixel inside the raster.
    pub open spec fn at(&self, x: int, y: int, c: int) -> u8 {
        self.data@[sample_offset(self.width as int, self.channels as int, x, y, c)]
    }

    /// The sample of channel `c` at `(x, y)` under clamp-to-edge addressing.
    pub open spec fn sample(&self, x: int, y: int, c: int) -> u8 {
        self.at(clamp_index(x, self.width as int), clamp_index(y, self.height as int), c)
    }

    /// Same width, height, channel count and alpha flag.
    pub open spec fn same_shape(&self, other: &Image) -> bool {
        &&& self.width == other.width
        &&& self.height == other.height
        &&& self.channels == other.channels
        &&& self.alpha == other.alpha
    }

    /// Number of samples of a raster of this shape, where it can be addressed.
    fn sample_total(width: u32, height: u32, channels: u8) -> (r: Option<usize>)
        ensures
            match r {
                Some(n) => n as int == width as int * height as int * channels as int,
                None => width as int * height as int * channels as int > usize::MAX as int,
            },
    {
        let w: u128 = width as u128;
        let h: u128 = height as u128;
        let ch: u128 = channels as u128;
        assert(w * h <= 0xffff_ffff * 0xffff_ffff) by (nonlinear_arith)
            requires
                0 <= w <= 0xffff_ffff,
                0 <= h <= 0xffff_ffff,
        ;
        let wh: u128 = w * h;
        assert(wh * ch <= 0xffff_ffff * 0xffff_ffff * 255) by (nonlinear_arith)
            requires
                0 <= wh <= 0xffff_ffff * 0xffff_ffff,
                0 <= ch <= 255,
        ;
        let total: u128 = wh * ch;
        if total > usize::MAX as u128 {
            None
        } else {
            Some(total as usize)
        }
    }

    /// An image over a copy of `data`; `None` unless the channel count is one
    /// to four and `data` has one sample per pixel and channel.
    pub fn new(width: u32, height: u32, channels: u8, alpha: bool, data: &[u8]) -> (r: Option<Image>)
        ensures
            r is Some <==> 1 <= channels <= 4 && data@.len() == width as int * height as int
                * channels as int,
            r matches Some(img) ==> img.wf() && img.width == width && img.height == height
                && img.channels == channels && img.alpha == alpha && img.data@ == data@,
    {
        if channels < 1 || channels > 4 {
            return None;
        }
        let len: usize = data.len();
        match Self::sample_total(width, height, channels) {
            None => None,
            Some(n) => {
                if len != n {
                    return None;
                }
                let mut buf: Vec<u8> = Vec::new();
                let mut i: usize = 0;
                while i < n
                    invariant
                        i <= n,
                        n == data@.len(),
                        buf@ == data@.subrange(0, i as int),
                    decreases n - i,
                {
                    buf.push(data[i]);
                    i += 1;
                    assert(buf@ =~= data@.subrange(0, i as int));
                }
                assert(buf@ =~= data@);
                Some(Image { width, height, channels, alpha, data: buf })
            },
        }
    }

    /// An all-zero image of the given shape; `None` unless the channel count
    /// is one to four and the sample count is addressable.
    pub fn blank(width: u32, height: u32, channels: u8, alpha: bool) -> (r: Option<Image>)
        ensures
            r is Some <==> 1 <= channels <= 4 && width as int * height as int * channels as int
                <= usize::MAX as int,
            r matches Some(img) ==> img.wf() && img.width == width && img.height == height
                && img.channels == channels && img.alpha == alpha && (forall|k: int|
                0 <= k < img.data@.len() ==> img.data@[k] == 0),
    {
        if channels < 1 || channels > 4 {
            return None;
        }
        match Self::sample_total(width, height, channels) {
            None => None,
            Some(n) => Some(Image { width, height, channels, alpha, data: vec![0u8; n] }),
        }
    }

    /// An all-zero image of the same shape as `self`.
    pub fn blank_like(&self) -> (r: Image)
        requires
            self.wf(),
        ensures
            r.wf(),
            r.same_shape(self),
            forall|k: int| 0 <= k < r.data@.len() ==> r.data@[k] == 0,
    {
        let n: usize = self.data.len();
        Image {
            width: self.width,
            height: self.height,
            channels: self.channels,
            alpha: self.alpha,
            data: vec![0u8; n],
        }
    }

    /// Width in pixels.
    pub fn width(&self) -> (r: u32)
        ensures
            r == self.width,
    {
        self.width
    }

    /// Height in pixels.
    pub fn height(&self) -> (r: u32)
        ensures
            r == self.height,
    {
        self.height
    }

    /// Samples per pixel.
    pub fn channels(&self) -> (r: u8)
        ensures
            r == self.channels,
    {
        self.channels
    }

    /// Whether the last channel is an alpha channel.
    pub fn has_alpha(&self) -> (r: bool)
        ensures
            r == self.alpha,
    {
        self.alpha
    }

    /// The whole buffer, row by row.
    pub fn data(&self) -> (r: &[u8])
        ensures
            r@ == self.data@,
    {
        self.data.as_slice()
    }

    /// Place of sample `(x, y, c)` in the buffer.
    fn offset(&self, x: u32, y: u32, c: u8) -> (r: usize)
        requires
            self.wf(),
            x < self.width,
            y < self.height,
            c < self.channels,
        ensures
            r as int == sample_offset(self.width as int, self.channels as int, x as int, y as int, c as int),
            r < self.data@.len(),
    {
        let len: usize = self.data.len();
        proof {
            lemma_offset_in_range(
                self.width as int,
                self.height as int,
                self.channels as int,
                x as int,
                y as int,
                c as int,
            );
            let (wi, hi, ci, xi, yi) = (
                self.width as int,
                self.height as int,
                self.channels as int,
                x as int,
                y as int,
            );
            assert(0 <= yi * wi + xi && yi * wi + xi < hi * wi && 0 <= yi * wi && hi * wi <= wi * hi
                * ci) by (nonlinear_arith)
                requires
                    0 <= xi && xi < wi,
                    0 <= yi && yi < hi,
                    1 <= ci,
            ;
            assert(len as int == wi * hi * ci);
            assert(yi * wi + xi == (y as usize * self.width as usize + x as usize) as int);
        }
        let w: usize = self.width as usize;
        let row: usize = y as usize * w;
        (row + x as usize) * (self.channels as usize) + c as usize
    }

    /// Reads the sample of channel `c` at pixel `(x, y)`.
    pub fn get(&self, x: u32, y: u32, c: u8) -> (r: u8)
        requires
            self.wf(),
            x < self.width,
            y < self.height,
            c < self.channels,
        ensures
            r == self.at(x as int, y as int, c as int),
    {
        let k: usize = self.offset(x, y, c);
        self.data[k]
    }

    /// Writes the sample of channel `c` at pixel `(x, y)` and leaves every other sample as it was.
    pub fn set(&mut self, x: u32, y: u32, c: u8, value: u8)
        requires
            old(self).wf(),
            x < old(self).width,
            y < old(self).height,
            c < old(self).channels,
        ensures
            final(self).wf(),
            final(self).same_shape(old(self)),
            final(self).at(x as int, y as int, c as int) == value,
            forall|x2: int, y2: int, c2: int|
                0 <= x2 < old(self).width && 0 <= y2 < old(self).height && 0 <= c2 < old(self).channels && !(x2 == x && y2 == y && c2 == c) ==> #[trigger] final(self).at(x2, y2, c2)
                    == old(self).at(x2, y2, c2),
    {
        let k: usize = self.offset(x, y, c);
        self.data.set(k, value);
        proof {
            assert forall|x2: int, y2: int, c2: int|
                0 <= x2 < old(self).width && 0 <= y2 < old(self).height && 0 <= c2 < old(self).channels && !(x2 == x && y2 == y && c2 == c) implies #[trigger] self.at(x2, y2, c2)
                == old(self).at(x2, y2, c2) by {
                lemma_offset_in_range(
                    self.width as int,
                    self.height as int,
                    self.channels as int,
                    x2,
                    y2,
                    c2,
                );
                if sample_offset(self.width as int, self.channels as int, x2, y2, c2) == k as int {
                    lemma_offset_injective(
                        self.width as int,
                        self.channels as int,
                        x2,
                        y2,
                        c2,
                        x as int,
                        y as int,
                        c as int,
                    );
                }
            }
        }
    }
}

} // verus!
