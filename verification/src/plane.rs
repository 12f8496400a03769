//! A single-channel 2D sample buffer with explicit dimensions and row pitch.

use vstd::prelude::*;

verus! {

/// A read-only, single-channel plane of 8-bit samples.
///
/// `stride` is the row pitch of `data` and may exceed `width` for alignment.
/// `xdec` and `ydec` are the log2 subsampling factors of a chroma plane
/// relative to the luma plane (0 for luma or an unsubsampled plane).
pub struct PixelPlane {
    /// The backing sample buffer, row-major with pitch `stride`.
    pub data: Vec<u8>,
    /// Number of samples per row.
    pub width: usize,
    /// Number of rows.
    pub height: usize,
    /// Row pitch of `data`; at least `width`.
    pub stride: usize,
    /// log2 horizontal subsampling relative to luma.
    pub xdec: usize,
    /// log2 vertical subsampling relative to luma.
    pub ydec: usize,
}

impl PixelPlane {
    /// Well-formedness: every index `y * stride + x` with `x < width` and
    /// `y < height` lands inside `data`. The dimension caps keep every sum
    /// of samples (or of squared sample differences) over a block inside a
    /// 64-bit accumulator, as the statistics functions require.
    pub open spec fn wf(self) -> bool {
        &&& 1 <= self.width <= 0x10000
        &&& 1 <= self.height <= 0x10000
        &&& self.width <= self.stride
        &&& self.height * self.stride <= self.data.len()
        &&& self.xdec <= 1
        &&& self.ydec <= 1
    }

    /// The sample at column `x`, row `y`.
    pub open spec fn sample(self, x: int, y: int) -> u8 {
        self.data[y * self.stride + x]
    }

    /// Builds a plane after checking that the pieces are consistent;
    /// rejects any combination that `wf` would refuse.
    pub fn new(
        data: Vec<u8>,
        width: usize,
        height: usize,
        stride: usize,
        xdec: usize,
        ydec: usize,
    ) -> (r: Option<PixelPlane>)
        ensures
            r matches Some(p) ==> p.wf() && p == (PixelPlane {
                data: data,
                width,
                height,
                stride,
                xdec,
                ydec,
            }),
            r is None ==> !(PixelPlane { data, width, height, stride, xdec, ydec }).wf(),
    {
        if 1 <= width && width <= 0x10000 && 1 <= height && height <= 0x10000 && width <= stride
            && xdec <= 1 && ydec <= 1 {
            if let Some(need) = height.checked_mul(stride) {
                if need <= data.len() {
                    return Some(PixelPlane { data, width, height, stride, xdec, ydec });
                }
            }
            None
        } else {
            None
        }
    }

    /// Reads the sample at `(x, y)` with the bounds proved once from `wf`.
    pub fn sample_at(&self, x: usize, y: usize) -> (r: u8)
        requires
            self.wf(),
            x < self.width,
            y < self.height,
        ensures
            r == self.sample(x as int, y as int),
    {
        proof {
            lemma_index_in_bounds(*self, x as int, y as int);
        }
        self.data[y * self.stride + x]
    }
}

/// In a well-formed plane every in-range `(x, y)` yields an index inside the
/// backing buffer.
pub proof fn lemma_index_in_bounds(p: PixelPlane, x: int, y: int)
    requires
        p.wf(),
        0 <= x < p.width,
        0 <= y < p.height,
    ensures
        0 <= y * p.stride + x < p.data.len(),
        y * p.stride + x <= (p.height - 1) * p.stride + p.width - 1,
{
    assert(y * p.stride <= (p.height - 1) * p.stride) by (nonlinear_arith)
        requires
            0 <= y <= p.height - 1,
            0 <= p.stride,
    ;
    assert((p.height - 1) * p.stride + p.stride == p.height * p.stride) by (nonlinear_arith);
    assert(y * p.stride >= 0) by (nonlinear_arith)
        requires
            y >= 0,
            p.stride >= 0,
    ;
}

} // verus!
