//! Block-level statistics over a plane or a source/denoised plane pair:
//! the sample sum (for the block mean) and the exact noise sums (for the
//! population noise variance), always clipped to the frame bounds.

use vstd::prelude::*;

use crate::plane::PixelPlane;
use crate::BLOCK_SIZE;

verus! {

/// Sum of the samples of one row segment: `w` samples starting at
/// `(x0, y)`.
pub open spec fn row_sum(p: PixelPlane, x0: int, y: int, w: nat) -> int
    decreases w,
{
    if w == 0 {
        0
    } else {
        row_sum(p, x0, y, (w - 1) as nat) + p.sample(x0 + w - 1, y)
    }
}

/// Sum of the samples of the `w` by `h` block whose top-left corner is
/// `(x0, y0)`.
pub open spec fn block_sum(p: PixelPlane, x0: int, y0: int, w: nat, h: nat) -> int
    decreases h,
{
    if h == 0 {
        0
    } else {
        block_sum(p, x0, y0, w, (h - 1) as nat) + row_sum(p, x0, y0 + h - 1, w)
    }
}

/// The noise sample at `(x, y)`: source minus denoised, in the signed
/// integer domain.
pub open spec fn noise_at(s: PixelPlane, d: PixelPlane, x: int, y: int) -> int {
    s.sample(x, y) - d.sample(x, y)
}

/// Sum of the noise samples of one row segment.
pub open spec fn row_noise_sum(s: PixelPlane, d: PixelPlane, x0: int, y: int, w: nat) -> int
    decreases w,
{
    if w == 0 {
        0
    } else {
        row_noise_sum(s, d, x0, y, (w - 1) as nat) + noise_at(s, d, x0 + w - 1, y)
    }
}

/// Sum of the noise samples of the `w` by `h` block at `(x0, y0)`.
pub open spec fn block_noise_sum(s: PixelPlane, d: PixelPlane, x0: int, y0: int, w: nat, h: nat) -> int
    decreases h,
{
    if h == 0 {
        0
    } else {
        block_noise_sum(s, d, x0, y0, w, (h - 1) as nat) + row_noise_sum(s, d, x0, y0 + h - 1, w)
    }
}

/// Sum of the squared noise samples of one row segment.
pub open spec fn row_noise_sq_sum(s: PixelPlane, d: PixelPlane, x0: int, y: int, w: nat) -> int
    decreases w,
{
    if w == 0 {
        0
    } else {
        row_noise_sq_sum(s, d, x0, y, (w - 1) as nat) + noise_at(s, d, x0 + w - 1, y) * noise_at(
            s,
            d,
            x0 + w - 1,
            y,
        )
    }
}

/// Sum of the squared noise samples of the `w` by `h` block at `(x0, y0)`.
pub open spec fn block_noise_sq_sum(
    s: PixelPlane,
    d: PixelPlane,
    x0: int,
    y0: int,
    w: nat,
    h: nat,
) -> int
    decreases h,
{
    if h == 0 {
        0
    } else {
        block_noise_sq_sum(s, d, x0, y0, w, (h - 1) as nat) + row_noise_sq_sum(
            s,
            d,
            x0,
            y0 + h - 1,
            w,
        )
    }
}

/// A row of samples sums to a value between 0 and 255 per sample.
pub proof fn lemma_row_sum_bounds(p: PixelPlane, x0: int, y: int, w: nat)
    ensures
        0 <= row_sum(p, x0, y, w) <= 255 * w,
    decreases w,
{
    if w > 0 {
        lemma_row_sum_bounds(p, x0, y, (w - 1) as nat);
    }
}

/// A block of samples sums to a value between 0 and 255 per sample.
pub proof fn lemma_block_sum_bounds(p: PixelPlane, x0: int, y0: int, w: nat, h: nat)
    ensures
        0 <= block_sum(p, x0, y0, w, h) <= 255 * w * h,
    decreases h,
{
    if h > 0 {
        lemma_block_sum_bounds(p, x0, y0, w, (h - 1) as nat);
        lemma_row_sum_bounds(p, x0, y0 + h - 1, w);
        assert(255 * w * ((h - 1) as nat) + 255 * w == 255 * w * h) by (nonlinear_arith)
            requires
                h >= 1,
        ;
    } else {
        assert(255 * w * h == 0) by (nonlinear_arith)
            requires
                h == 0,
        ;
    }
}

/// Each row noise sum lies between -255 and 255 per sample.
pub proof fn lemma_row_noise_sum_bounds(s: PixelPlane, d: PixelPlane, x0: int, y: int, w: nat)
    ensures
        -255 * w <= row_noise_sum(s, d, x0, y, w) <= 255 * w,
    decreases w,
{
    if w > 0 {
        lemma_row_noise_sum_bounds(s, d, x0, y, (w - 1) as nat);
    }
}

/// A block noise sum lies between -255 and 255 per sample.
pub proof fn lemma_block_noise_sum_bounds(
    s: PixelPlane,
    d: PixelPlane,
    x0: int,
    y0: int,
    w: nat,
    h: nat,
)
    ensures
        -255 * w * h <= block_noise_sum(s, d, x0, y0, w, h) <= 255 * w * h,
    decreases h,
{
    if h > 0 {
        lemma_block_noise_sum_bounds(s, d, x0, y0, w, (h - 1) as nat);
        lemma_row_noise_sum_bounds(s, d, x0, y0 + h - 1, w);
        assert(255 * w * ((h - 1) as nat) + 255 * w == 255 * w * h) by (nonlinear_arith)
            requires
                h >= 1,
        ;
        assert(-255 * w * ((h - 1) as nat) + -255 * w == -255 * w * h) by (nonlinear_arith)
            requires
                h >= 1,
        ;
    } else {
        assert(255 * w * h == 0) by (nonlinear_arith)
            requires
                h == 0,
        ;
    }
}

/// Each squared noise sample lies between 0 and 65025, so row sums of
/// squares lie between 0 and 65025 per sample.
pub proof fn lemma_row_noise_sq_sum_bounds(s: PixelPlane, d: PixelPlane, x0: int, y: int, w: nat)
    ensures
        0 <= row_noise_sq_sum(s, d, x0, y, w) <= 65025 * w,
    decreases w,
{
    if w > 0 {
        lemma_row_noise_sq_sum_bounds(s, d, x0, y, (w - 1) as nat);
        let v = noise_at(s, d, x0 + w - 1, y);
        assert(0 <= v * v <= 65025) by (nonlinear_arith)
            requires
                -255 <= v <= 255,
        ;
    }
}

/// A block sum of squared noise lies between 0 and 65025 per sample.
pub proof fn lemma_block_noise_sq_sum_bounds(
    s: PixelPlane,
    d: PixelPlane,
    x0: int,
    y0: int,
    w: nat,
    h: nat,
)
    ensures
        0 <= block_noise_sq_sum(s, d, x0, y0, w, h) <= 65025 * w * h,
    decreases h,
{
    if h > 0 {
        lemma_block_noise_sq_sum_bounds(s, d, x0, y0, w, (h - 1) as nat);
        lemma_row_noise_sq_sum_bounds(s, d, x0, y0 + h - 1, w);
        assert(65025 * w * ((h - 1) as nat) + 65025 * w == 65025 * w * h) by (nonlinear_arith)
            requires
                h >= 1,
        ;
    } else {
        assert(65025 * w * h == 0) by (nonlinear_arith)
            requires
                h == 0,
        ;
    }
}

/// The exact block mean, as the pair of its sample sum and its clipped
/// area; the arithmetic mean is `sum / area`.
pub struct BlockMean {
    /// Sum of the samples inside the clipped block.
    pub sum: u64,
    /// Number of samples inside the clipped block; never zero.
    pub area: u64,
}

/// The width of a block clipped to the frame.
pub open spec fn clipped_extent(frame_extent: int, origin: int, block_extent: int) -> int {
    vstd::math::min(frame_extent - origin, block_extent)
}

/// Computes the exact mean data of the `BLOCK_SIZE`-square block of
/// `source` whose top-left corner is `(x_o, y_o)`, clipped to the frame
/// bounds `frame_w` by `frame_h`.
///
/// The block origin must lie inside the frame, so the clipped block is
/// never empty and the mean `sum / area` never divides by zero.
pub fn get_block_mean(
    source: &PixelPlane,
    frame_w: usize,
    frame_h: usize,
    x_o: usize,
    y_o: usize,
) -> (r: BlockMean)
    requires
        source.wf(),
        frame_w <= source.width,
        frame_h <= source.height,
        x_o < frame_w,
        y_o < frame_h,
    ensures
        r.area == clipped_extent(frame_w as int, x_o as int, BLOCK_SIZE as int) * clipped_extent(
            frame_h as int,
            y_o as int,
            BLOCK_SIZE as int,
        ),
        r.sum == block_sum(
            *source,
            x_o as int,
            y_o as int,
            clipped_extent(frame_w as int, x_o as int, BLOCK_SIZE as int) as nat,
            clipped_extent(frame_h as int, y_o as int, BLOCK_SIZE as int) as nat,
        ),
        0 < r.area <= 0x1_0000_0000,
        r.sum <= 255 * r.area,
{
    let rem_h = frame_h - y_o;
    let rem_w = frame_w - x_o;
    let max_h = if rem_h < BLOCK_SIZE {
        rem_h
    } else {
        BLOCK_SIZE
    };
    let max_w = if rem_w < BLOCK_SIZE {
        rem_w
    } else {
        BLOCK_SIZE
    };

    let mut block_sum_acc: u64 = 0;
    let mut y: usize = 0;
    while y < max_h
        invariant
            source.wf(),
            frame_w <= source.width,
            frame_h <= source.height,
            x_o < frame_w,
            y_o < frame_h,
            max_w == clipped_extent(frame_w as int, x_o as int, BLOCK_SIZE as int),
            max_h == clipped_extent(frame_h as int, y_o as int, BLOCK_SIZE as int),
            y <= max_h,
            block_sum_acc == block_sum(*source, x_o as int, y_o as int, max_w as nat, y as nat),
        decreases max_h - y,
    {
        let mut x: usize = 0;
        while x < max_w
            invariant
                source.wf(),
                frame_w <= source.width,
                frame_h <= source.height,
                x_o < frame_w,
                y_o < frame_h,
                max_w == clipped_extent(frame_w as int, x_o as int, BLOCK_SIZE as int),
                max_h == clipped_extent(frame_h as int, y_o as int, BLOCK_SIZE as int),
                y < max_h,
                x <= max_w,
                block_sum_acc == block_sum(*source, x_o as int, y_o as int, max_w as nat, y as nat)
                    + row_sum(*source, x_o as int, y_o as int + y, x as nat),
            decreases max_w - x,
        {
            proof {
                lemma_block_sum_bounds(*source, x_o as int, y_o as int, max_w as nat, y as nat);
                lemma_row_sum_bounds(*source, x_o as int, y_o as int + y, x as nat);
                assert(255 * (max_w as int) * (y as int) + 255 * (x as int) + 255
                    < 0x1_0000_0000_0000) by (nonlinear_arith)
                    requires
                        0 <= max_w <= 0x10000,
                        0 <= y <= 0x10000,
                        0 <= x <= 0x10000,
                ;
            }
            let v = source.sample_at(x_o + x, y_o + y);
            block_sum_acc = block_sum_acc + v as u64;
            x = x + 1;
        }
        y = y + 1;
    }
    proof {
        lemma_block_sum_bounds(*source, x_o as int, y_o as int, max_w as nat, max_h as nat);
        assert((max_w as int) * (max_h as int) <= 0x1_0000_0000) by (nonlinear_arith)
            requires
                0 <= max_w <= 0x10000,
                0 <= max_h <= 0x10000,
        ;
        assert((max_w as int) * (max_h as int) >= 1) by (nonlinear_arith)
            requires
                1 <= max_w,
                1 <= max_h,
        ;
        assert(255 * ((max_w as int) * (max_h as int)) == 255 * (max_w as int) * (max_h as int))
            by (nonlinear_arith);
    }
    let area = (max_w as u64) * (max_h as u64);
    BlockMean { sum: block_sum_acc, area }
}

/// The exact noise statistics of a clipped block: the noise sum, the sum of
/// squared noise, and the clipped area. The population noise variance is
/// `square_sum / area - (noise_sum / area)^2`; `variance_parts` returns it
/// as one exact integer fraction.
pub struct NoiseStats {
    /// Sum over the block of `source - denoised`.
    pub noise_sum: i64,
    /// Sum over the block of `(source - denoised)^2`.
    pub square_sum: u64,
    /// Number of samples inside the clipped block; never zero.
    pub area: u64,
}

impl NoiseStats {
    /// Bounds that tie the sums to the area; they make the variance
    /// arithmetic provably free of overflow.
    pub open spec fn wf(self) -> bool {
        &&& 1 <= self.area <= 0x1_0000_0000
        &&& -255 * self.area <= self.noise_sum <= 255 * self.area
        &&& self.square_sum <= 65025 * self.area
    }

    /// The exact population variance as a fraction: returns
    /// `(area * square_sum - noise_sum^2, area^2)`, whose quotient is
    /// `mean(noise^2) - mean(noise)^2`.
    pub fn variance_parts(&self) -> (r: (i128, u128))
        requires
            self.wf(),
        ensures
            r.0 == self.area * self.square_sum - self.noise_sum * self.noise_sum,
            r.1 == self.area * self.area,
            r.1 > 0,
    {
        proof {
            let a = self.area as int;
            let q = self.square_sum as int;
            let ns = self.noise_sum as int;
            assert(0 <= a * q < 0x4_0000_0000_0000_0000_0000 && 0 <= ns * ns
                < 0x4_0000_0000_0000_0000_0000 && 0 < a * a <= 0x1_0000_0000_0000_0000)
                by (nonlinear_arith)
                requires
                    1 <= a <= 0x1_0000_0000,
                    -255 * a <= ns <= 255 * a,
                    0 <= q <= 65025 * a,
            ;
        }
        let num = self.area as i128 * self.square_sum as i128 - self.noise_sum as i128
            * self.noise_sum as i128;
        let den = self.area as u128 * self.area as u128;
        (num, den)
    }
}

/// Computes the exact noise statistics of the `block_w` by `block_h` block
/// of the source/denoised pair whose top-left corner is `(x_o, y_o)`,
/// clipped to the frame bounds `frame_w` by `frame_h`.
///
/// The block origin must lie inside the frame and the requested block must
/// be at least one sample in each dimension, so the clipped block is never
/// empty and the variance `(area * square_sum - noise_sum^2) / area^2`
/// never divides by zero.
pub fn get_noise_var(
    source: &PixelPlane,
    denoised: &PixelPlane,
    frame_w: usize,
    frame_h: usize,
    x_o: usize,
    y_o: usize,
    block_w: usize,
    block_h: usize,
) -> (r: NoiseStats)
    requires
        source.wf(),
        denoised.wf(),
        denoised.width == source.width,
        denoised.height == source.height,
        frame_w <= source.width,
        frame_h <= source.height,
        x_o < frame_w,
        y_o < frame_h,
        1 <= block_w,
        1 <= block_h,
    ensures
        r.area == clipped_extent(frame_w as int, x_o as int, block_w as int) * clipped_extent(
            frame_h as int,
            y_o as int,
            block_h as int,
        ),
        r.noise_sum == block_noise_sum(
            *source,
            *denoised,
            x_o as int,
            y_o as int,
            clipped_extent(frame_w as int, x_o as int, block_w as int) as nat,
            clipped_extent(frame_h as int, y_o as int, block_h as int) as nat,
        ),
        r.square_sum == block_noise_sq_sum(
            *source,
            *denoised,
            x_o as int,
            y_o as int,
            clipped_extent(frame_w as int, x_o as int, block_w as int) as nat,
            clipped_extent(frame_h as int, y_o as int, block_h as int) as nat,
        ),
        r.wf(),
{
    let rem_h = frame_h - y_o;
    let rem_w = frame_w - x_o;
    let max_h = if rem_h < block_h {
        rem_h
    } else {
        block_h
    };
    let max_w = if rem_w < block_w {
        rem_w
    } else {
        block_w
    };

    let mut noise_sum_acc: i64 = 0;
    let mut sq_sum_acc: u64 = 0;
    let mut y: usize = 0;
    while y < max_h
        invariant
            source.wf(),
            denoised.wf(),
            denoised.width == source.width,
            denoised.height == source.height,
            frame_w <= source.width,
            frame_h <= source.height,
            x_o < frame_w,
            y_o < frame_h,
            1 <= max_w <= 0x10000,
            1 <= max_h <= 0x10000,
            max_w == clipped_extent(frame_w as int, x_o as int, block_w as int),
            max_h == clipped_extent(frame_h as int, y_o as int, block_h as int),
            y <= max_h,
            noise_sum_acc == block_noise_sum(
                *source,
                *denoised,
                x_o as int,
                y_o as int,
                max_w as nat,
                y as nat,
            ),
            sq_sum_acc == block_noise_sq_sum(
                *source,
                *denoised,
                x_o as int,
                y_o as int,
                max_w as nat,
                y as nat,
            ),
        decreases max_h - y,
    {
        let mut x: usize = 0;
        while x < max_w
            invariant
                source.wf(),
                denoised.wf(),
                denoised.width == source.width,
                denoised.height == source.height,
                frame_w <= source.width,
                frame_h <= source.height,
                x_o < frame_w,
                y_o < frame_h,
                1 <= max_w <= 0x10000,
                1 <= max_h <= 0x10000,
                max_w == clipped_extent(frame_w as int, x_o as int, block_w as int),
                max_h == clipped_extent(frame_h as int, y_o as int, block_h as int),
                y < max_h,
                x <= max_w,
                noise_sum_acc == block_noise_sum(
                    *source,
                    *denoised,
                    x_o as int,
                    y_o as int,
                    max_w as nat,
                    y as nat,
                ) + row_noise_sum(*source, *denoised, x_o as int, y_o as int + y, x as nat),
                sq_sum_acc == block_noise_sq_sum(
                    *source,
                    *denoised,
                    x_o as int,
                    y_o as int,
                    max_w as nat,
                    y as nat,
                ) + row_noise_sq_sum(*source, *denoised, x_o as int, y_o as int + y, x as nat),
            decreases max_w - x,
        {
            proof {
                lemma_block_noise_sum_bounds(
                    *source,
                    *denoised,
                    x_o as int,
                    y_o as int,
                    max_w as nat,
                    y as nat,
                );
                lemma_row_noise_sum_bounds(*source, *denoised, x_o as int, y_o as int + y, x as nat);
                lemma_block_noise_sq_sum_bounds(
                    *source,
                    *denoised,
                    x_o as int,
                    y_o as int,
                    max_w as nat,
                    y as nat,
                );
                lemma_row_noise_sq_sum_bounds(
                    *source,
                    *denoised,
                    x_o as int,
                    y_o as int + y,
                    x as nat,
                );
                let bs = block_noise_sum(
                    *source,
                    *denoised,
                    x_o as int,
                    y_o as int,
                    max_w as nat,
                    y as nat,
                );
                let rs = row_noise_sum(*source, *denoised, x_o as int, y_o as int + y, x as nat);
                let bq = block_noise_sq_sum(
                    *source,
                    *denoised,
                    x_o as int,
                    y_o as int,
                    max_w as nat,
                    y as nat,
                );
                let rq = row_noise_sq_sum(*source, *denoised, x_o as int, y_o as int + y, x as nat);
                assert(-0x1_0000_0000_0000 < bs + rs < 0x1_0000_0000_0000)
                    by (nonlinear_arith)
                    requires
                        -255 * (max_w as int) * (y as int) <= bs <= 255 * (max_w as int) * (
                        y as int),
                        -255 * (x as int) <= rs <= 255 * (x as int),
                        0 <= max_w <= 0x10000,
                        0 <= y <= 0x10000,
                        0 <= x <= 0x10000,
                ;
                assert(0 <= bq + rq && bq + rq + 65025 < 0x1_0000_0000_0000_0000)
                    by (nonlinear_arith)
                    requires
                        0 <= bq <= 65025 * (max_w as int) * (y as int),
                        0 <= rq <= 65025 * (x as int),
                        0 <= max_w <= 0x10000,
                        0 <= y <= 0x10000,
                        0 <= x <= 0x10000,
                ;
            }
            let v_s = source.sample_at(x_o + x, y_o + y);
            let v_d = denoised.sample_at(x_o + x, y_o + y);
            let noise = v_s as i64 - v_d as i64;
            proof {
                assert(0 <= noise * noise <= 65025) by (nonlinear_arith)
                    requires
                        -255 <= noise <= 255,
                ;
            }
            noise_sum_acc = noise_sum_acc + noise;
            sq_sum_acc = sq_sum_acc + (noise * noise) as u64;
            x = x + 1;
        }
        y = y + 1;
    }
    proof {
        lemma_block_noise_sum_bounds(
            *source,
            *denoised,
            x_o as int,
            y_o as int,
            max_w as nat,
            max_h as nat,
        );
        lemma_block_noise_sq_sum_bounds(
            *source,
            *denoised,
            x_o as int,
            y_o as int,
            max_w as nat,
            max_h as nat,
        );
        assert(1 <= (max_w as int) * (max_h as int) <= 0x1_0000_0000) by (nonlinear_arith)
            requires
                1 <= max_w <= 0x10000,
                1 <= max_h <= 0x10000,
        ;
        assert(255 * ((max_w as int) * (max_h as int)) == 255 * (max_w as int) * (max_h as int))
            by (nonlinear_arith);
        assert(-255 * ((max_w as int) * (max_h as int)) == -255 * (max_w as int) * (max_h as int))
            by (nonlinear_arith);
        assert(65025 * ((max_w as int) * (max_h as int)) == 65025 * (max_w as int) * (max_h
            as int)) by (nonlinear_arith);
    }
    let area = (max_w as u64) * (max_h as u64);
    NoiseStats { noise_sum: noise_sum_acc, square_sum: sq_sum_acc, area }
}

/// A row where every noise sample equals `k` sums to `k` per sample, and
/// its squares sum to `k * k` per sample.
pub proof fn lemma_constant_noise_row(s: PixelPlane, d: PixelPlane, x0: int, y: int, w: nat, k: int)
    requires
        forall|x: int| x0 <= x < x0 + w ==> noise_at(s, d, x, y) == k,
    ensures
        row_noise_sum(s, d, x0, y, w) == k * w,
        row_noise_sq_sum(s, d, x0, y, w) == (k * k) * w,
    decreases w,
{
    if w == 0 {
        assert(k * w == 0) by (nonlinear_arith)
            requires
                w == 0,
        ;
        assert((k * k) * w == 0) by (nonlinear_arith)
            requires
                w == 0,
        ;
    } else {
        lemma_constant_noise_row(s, d, x0, y, (w - 1) as nat, k);
        assert(noise_at(s, d, x0 + w - 1, y) == k);
        assert(k * ((w - 1) as nat) + k == k * w) by (nonlinear_arith)
            requires
                w >= 1,
        ;
        assert((k * k) * ((w - 1) as nat) + k * k == (k * k) * w) by (nonlinear_arith)
            requires
                w >= 1,
        ;
    }
}

/// A block where every noise sample equals `k` has noise sum `k` per
/// sample and squared-noise sum `k * k` per sample.
pub proof fn lemma_constant_noise_block(
    s: PixelPlane,
    d: PixelPlane,
    x0: int,
    y0: int,
    w: nat,
    h: nat,
    k: int,
)
    requires
        forall|x: int, y: int|
            x0 <= x < x0 + w && y0 <= y < y0 + h ==> noise_at(s, d, x, y) == k,
    ensures
        block_noise_sum(s, d, x0, y0, w, h) == k * (w * h),
        block_noise_sq_sum(s, d, x0, y0, w, h) == (k * k) * (w * h),
    decreases h,
{
    if h == 0 {
        assert(k * (w * h) == 0 && (k * k) * (w * h) == 0) by (nonlinear_arith)
            requires
                h == 0,
        ;
    } else {
        lemma_constant_noise_block(s, d, x0, y0, w, (h - 1) as nat, k);
        lemma_constant_noise_row(s, d, x0, y0 + h - 1, w, k);
        assert(k * (w * ((h - 1) as nat)) + k * w == k * (w * h)) by (nonlinear_arith)
            requires
                h >= 1,
        ;
        assert((k * k) * (w * ((h - 1) as nat)) + (k * k) * w == (k * k) * (w * h))
            by (nonlinear_arith)
            requires
                h >= 1,
        ;
    }
}

/// Rows of a source/denoised pair decompose: the row sum of the source
/// equals the row sum of the denoised plane plus the row noise sum.
pub proof fn lemma_row_sum_decomposition(s: PixelPlane, d: PixelPlane, x0: int, y: int, w: nat)
    ensures
        row_sum(s, x0, y, w) == row_sum(d, x0, y, w) + row_noise_sum(s, d, x0, y, w),
    decreases w,
{
    if w > 0 {
        lemma_row_sum_decomposition(s, d, x0, y, (w - 1) as nat);
    }
}

/// Blocks of a source/denoised pair decompose: the block sum of the source
/// equals the block sum of the denoised plane plus the block noise sum —
/// so the block mean of the source is the block mean of the denoised plane
/// plus the mean of the noise.
pub proof fn lemma_block_sum_decomposition(
    s: PixelPlane,
    d: PixelPlane,
    x0: int,
    y0: int,
    w: nat,
    h: nat,
)
    ensures
        block_sum(s, x0, y0, w, h) == block_sum(d, x0, y0, w, h) + block_noise_sum(
            s,
            d,
            x0,
            y0,
            w,
            h,
        ),
    decreases h,
{
    if h > 0 {
        lemma_block_sum_decomposition(s, d, x0, y0, w, (h - 1) as nat);
        lemma_row_sum_decomposition(s, d, x0, y0 + h - 1, w);
    }
}

/// The noise-variance closed form for constant noise: when every noise
/// sample of a block equals `k`, the exact variance fraction is zero.
pub proof fn lemma_constant_noise_variance_zero(
    s: PixelPlane,
    d: PixelPlane,
    x0: int,
    y0: int,
    w: nat,
    h: nat,
    k: int,
)
    requires
        forall|x: int, y: int|
            x0 <= x < x0 + w && y0 <= y < y0 + h ==> noise_at(s, d, x, y) == k,
    ensures
        (w * h) * block_noise_sq_sum(s, d, x0, y0, w, h) - block_noise_sum(s, d, x0, y0, w, h)
            * block_noise_sum(s, d, x0, y0, w, h) == 0,
{
    lemma_constant_noise_block(s, d, x0, y0, w, h, k);
    let a = w * h;
    assert(a * ((k * k) * a) - (k * a) * (k * a) == 0) by (nonlinear_arith);
}

} // verus!
