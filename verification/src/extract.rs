//! Neighbor-residual extraction: one row of the regression design matrix
//! used to fit autoregressive grain coefficients.

use vstd::prelude::*;

use crate::plane::PixelPlane;
use crate::stats::{block_noise_sum, block_sum, lemma_block_sum_decomposition, noise_at, row_sum};

verus! {

/// The number of samples one plane sample covers in a plane decimated by
/// `dec` (log2) in one dimension.
pub open spec fn dec_factor(dec: usize) -> int {
    if dec == 0 {
        1
    } else {
        2
    }
}

/// The chroma-from-luma auxiliary sample for the pixel `(x, y)` of a
/// decimated plane: the summed residual of the co-located full-resolution
/// block of the alternate plane pair, together with the number of samples
/// in that block. The auxiliary predictor value is the quotient of the two.
pub open spec fn aux_residual_sum(
    alt_source: PixelPlane,
    alt_denoised: PixelPlane,
    x: int,
    y: int,
    xdec: usize,
    ydec: usize,
) -> int {
    block_noise_sum(
        alt_source,
        alt_denoised,
        x * dec_factor(xdec),
        y * dec_factor(ydec),
        (dec_factor(xdec)) as nat,
        (dec_factor(ydec)) as nat,
    )
}

/// Gathers the residual samples (source minus denoised) for one target
/// pixel `(x, y)`: `buffer[i]` receives the residual at the position
/// shifted by the `i`-th lag coordinate, and the returned scalar is the
/// residual at `(x, y)` itself — the regression target.
///
/// When an alternate (full-resolution) plane pair is supplied, the second
/// returned value carries the exact chroma-from-luma auxiliary sample as a
/// `(residual sum, sample count)` pair over the co-located upsampled block;
/// its quotient is the auxiliary predictor. Entries of `buffer` past
/// `num_coords` are left untouched.
pub fn extract_ar_row(
    coords: &Vec<(i64, i64)>,
    num_coords: usize,
    source: &PixelPlane,
    denoised: &PixelPlane,
    alt_source: Option<&PixelPlane>,
    alt_denoised: Option<&PixelPlane>,
    x: usize,
    y: usize,
    buffer: &mut Vec<i64>,
) -> (r: (i64, Option<(i64, u64)>))
    requires
        source.wf(),
        denoised.wf(),
        denoised.width == source.width,
        denoised.height == source.height,
        x < source.width,
        y < source.height,
        num_coords <= coords.len(),
        num_coords <= old(buffer).len(),
        forall|i: int|
            0 <= i < num_coords ==> {
                &&& 0 <= x + (#[trigger] coords[i]).0 < source.width
                &&& 0 <= y + coords[i].1 < source.height
            },
        alt_source is Some && alt_denoised is Some ==> {
            &&& alt_source->0.wf()
            &&& alt_denoised->0.wf()
            &&& alt_denoised->0.width == alt_source->0.width
            &&& alt_denoised->0.height == alt_source->0.height
            &&& (x + 1) * dec_factor(source.xdec) <= alt_source->0.width
            &&& (y + 1) * dec_factor(source.ydec) <= alt_source->0.height
        },
    ensures
        final(buffer).len() == old(buffer).len(),
        forall|i: int|
            0 <= i < num_coords ==> final(buffer)[i] == noise_at(
                *source,
                *denoised,
                x + coords[i].0,
                y + coords[i].1,
            ),
        forall|i: int|
            num_coords <= i < old(buffer).len() ==> final(buffer)[i] == old(buffer)[i],
        r.0 == noise_at(*source, *denoised, x as int, y as int),
        alt_source is Some && alt_denoised is Some ==> {
            &&& r.1 is Some
            &&& (r.1->0).0 == aux_residual_sum(
                *alt_source->0,
                *alt_denoised->0,
                x as int,
                y as int,
                source.xdec,
                source.ydec,
            )
            &&& (r.1->0).1 == dec_factor(source.xdec) * dec_factor(source.ydec)
        },
        !(alt_source is Some && alt_denoised is Some) ==> r.1 is None,
{
    let mut i: usize = 0;
    while i < num_coords
        invariant
            source.wf(),
            denoised.wf(),
            denoised.width == source.width,
            denoised.height == source.height,
            x < source.width,
            y < source.height,
            num_coords <= coords.len(),
            num_coords <= buffer.len(),
            buffer.len() == old(buffer).len(),
            i <= num_coords,
            forall|j: int|
                0 <= j < num_coords ==> {
                    &&& 0 <= x + (#[trigger] coords[j]).0 < source.width
                    &&& 0 <= y + coords[j].1 < source.height
                },
            forall|j: int|
                0 <= j < i ==> buffer[j] == noise_at(
                    *source,
                    *denoised,
                    x + coords[j].0,
                    y + coords[j].1,
                ),
            forall|j: int| i <= j < buffer.len() ==> buffer[j] == old(buffer)[j],
        decreases num_coords - i,
    {
        let c = coords[i];
        let x_i = (x as i64 + c.0) as usize;
        let y_i = (y as i64 + c.1) as usize;
        let v_s = source.sample_at(x_i, y_i);
        let v_d = denoised.sample_at(x_i, y_i);
        buffer.set(i, v_s as i64 - v_d as i64);
        i = i + 1;
    }

    let v_s = source.sample_at(x, y);
    let v_d = denoised.sample_at(x, y);
    let val = v_s as i64 - v_d as i64;

    let aux: Option<(i64, u64)> = match (alt_source, alt_denoised) {
        (Some(alt_s), Some(alt_d)) => Some(
            aux_block_residual(alt_s, alt_d, x, y, source.xdec, source.ydec),
        ),
        _ => None,
    };

    (val, aux)
}

/// Extraction-exactness law for a constant offset: when every residual of
/// the alternate pair inside the co-located upsampled block equals `k`, the
/// auxiliary residual sum is exactly `k` per sample — so the auxiliary
/// average is exactly `k`. (Each lag residual equals `k` directly from
/// `extract_ar_row`'s contract, which returns the residual itself.)
pub proof fn lemma_constant_offset_aux(
    alt_source: PixelPlane,
    alt_denoised: PixelPlane,
    x: int,
    y: int,
    xdec: usize,
    ydec: usize,
    k: int,
)
    requires
        forall|px: int, py: int|
            x * dec_factor(xdec) <= px < (x + 1) * dec_factor(xdec) && y * dec_factor(ydec) <= py
                < (y + 1) * dec_factor(ydec) ==> noise_at(alt_source, alt_denoised, px, py) == k,
    ensures
        aux_residual_sum(alt_source, alt_denoised, x, y, xdec, ydec) == k * (dec_factor(xdec)
            * dec_factor(ydec)),
{
    assert((x + 1) * dec_factor(xdec) == x * dec_factor(xdec) + dec_factor(xdec))
        by (nonlinear_arith);
    assert((y + 1) * dec_factor(ydec) == y * dec_factor(ydec) + dec_factor(ydec))
        by (nonlinear_arith);
    crate::stats::lemma_constant_noise_block(
        alt_source,
        alt_denoised,
        x * dec_factor(xdec),
        y * dec_factor(ydec),
        dec_factor(xdec) as nat,
        dec_factor(ydec) as nat,
        k,
    );
}

/// Sums the residuals of the `2^xdec` by `2^ydec` full-resolution block of
/// the alternate plane pair that is co-located with the decimated pixel
/// `(x, y)`.
fn aux_block_residual(
    alt_source: &PixelPlane,
    alt_denoised: &PixelPlane,
    x: usize,
    y: usize,
    xdec: usize,
    ydec: usize,
) -> (r: (i64, u64))
    requires
        alt_source.wf(),
        alt_denoised.wf(),
        alt_denoised.width == alt_source.width,
        alt_denoised.height == alt_source.height,
        (x + 1) * dec_factor(xdec) <= alt_source.width,
        (y + 1) * dec_factor(ydec) <= alt_source.height,
    ensures
        r.0 == aux_residual_sum(*alt_source, *alt_denoised, x as int, y as int, xdec, ydec),
        r.1 == (dec_factor(xdec) * dec_factor(ydec)) as u64,
{
    let sx: usize = if xdec == 0 {
        1
    } else {
        2
    };
    let sy: usize = if ydec == 0 {
        1
    } else {
        2
    };
    let x_up0 = x * sx;
    let y_up0 = y * sy;
    proof {
        assert(x_up0 + sx <= alt_source.width && y_up0 + sy <= alt_source.height)
            by (nonlinear_arith)
            requires
                x_up0 == x * sx,
                y_up0 == y * sy,
                (x + 1) * sx <= alt_source.width,
                (y + 1) * sy <= alt_source.height,
        ;
    }

    let mut source_sum: u64 = 0;
    let mut denoised_sum: u64 = 0;
    let mut dy: usize = 0;
    while dy < sy
        invariant
            alt_source.wf(),
            alt_denoised.wf(),
            alt_denoised.width == alt_source.width,
            alt_denoised.height == alt_source.height,
            1 <= sx <= 2,
            1 <= sy <= 2,
            x_up0 + sx <= alt_source.width,
            y_up0 + sy <= alt_source.height,
            dy <= sy,
            source_sum == block_sum(*alt_source, x_up0 as int, y_up0 as int, sx as nat, dy as nat),
            denoised_sum == block_sum(
                *alt_denoised,
                x_up0 as int,
                y_up0 as int,
                sx as nat,
                dy as nat,
            ),
        decreases sy - dy,
    {
        let mut dx: usize = 0;
        while dx < sx
            invariant
                alt_source.wf(),
                alt_denoised.wf(),
                alt_denoised.width == alt_source.width,
                alt_denoised.height == alt_source.height,
                1 <= sx <= 2,
                1 <= sy <= 2,
                x_up0 + sx <= alt_source.width,
                y_up0 + sy <= alt_source.height,
                dy < sy,
                dx <= sx,
                source_sum == block_sum(*alt_source, x_up0 as int, y_up0 as int, sx as nat, dy as nat)
                    + row_sum(*alt_source, x_up0 as int, y_up0 as int + dy, dx as nat),
                denoised_sum == block_sum(
                    *alt_denoised,
                    x_up0 as int,
                    y_up0 as int,
                    sx as nat,
                    dy as nat,
                ) + row_sum(*alt_denoised, x_up0 as int, y_up0 as int + dy, dx as nat),
            decreases sx - dx,
        {
            proof {
                crate::stats::lemma_block_sum_bounds(*alt_source, x_up0 as int, y_up0 as int, sx as nat, dy as nat);
                crate::stats::lemma_row_sum_bounds(*alt_source, x_up0 as int, y_up0 as int + dy, dx as nat);
                crate::stats::lemma_block_sum_bounds(*alt_denoised, x_up0 as int, y_up0 as int, sx as nat, dy as nat);
                crate::stats::lemma_row_sum_bounds(*alt_denoised, x_up0 as int, y_up0 as int + dy, dx as nat);
                assert(255 * (sx as int) * (dy as int) + 255 * (dx as int) + 255 <= 2000)
                    by (nonlinear_arith)
                    requires
                        0 <= sx <= 2,
                        0 <= dy <= 2,
                        0 <= dx <= 2,
                ;
            }
            let v_s = alt_source.sample_at(x_up0 + dx, y_up0 + dy);
            let v_d = alt_denoised.sample_at(x_up0 + dx, y_up0 + dy);
            source_sum = source_sum + v_s as u64;
            denoised_sum = denoised_sum + v_d as u64;
            dx = dx + 1;
        }
        dy = dy + 1;
    }

    proof {
        crate::stats::lemma_block_sum_bounds(*alt_source, x_up0 as int, y_up0 as int, sx as nat, sy as nat);
        crate::stats::lemma_block_sum_bounds(*alt_denoised, x_up0 as int, y_up0 as int, sx as nat, sy as nat);
        assert(255 * (sx as int) * (sy as int) <= 1020) by (nonlinear_arith)
            requires
                0 <= sx <= 2,
                0 <= sy <= 2,
        ;
        lemma_block_sum_decomposition(
            *alt_source,
            *alt_denoised,
            x_up0 as int,
            y_up0 as int,
            sx as nat,
            sy as nat,
        );
    }
    (source_sum as i64 - denoised_sum as i64, (sx * sy) as u64)
}

} // verus!
