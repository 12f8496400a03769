use av1_grain::correlation::normalized_cross_correlation;
use av1_grain::extract::extract_ar_row;
use av1_grain::matrix::multiply_mat;
use av1_grain::plane::PixelPlane;
use av1_grain::solver::linsolve;
use av1_grain::stats::{get_block_mean, get_noise_var};

fn plane(data: Vec<u8>, w: usize, h: usize, stride: usize) -> PixelPlane {
    PixelPlane::new(data, w, h, stride, 0, 0).expect("consistent plane")
}

fn solution_as_f64(num: &[i128], den: i128) -> Vec<f64> {
    num.iter().map(|&n| n as f64 / den as f64).collect()
}

#[test]
fn solver_recovers_known_solution() {
    // A * x = b with x = [1, 2, 3].
    let a: Vec<i64> = vec![2, 1, 0, 1, 3, 1, 0, 1, 2];
    let b: Vec<i64> = vec![4, 10, 8];
    let sol = linsolve(3, &a, 3, &b).expect("well-conditioned system");
    for (i, &want) in [1i128, 2, 3].iter().enumerate() {
        assert_eq!(sol.num[i], want * sol.den);
    }
    let x = solution_as_f64(&sol.num, sol.den);
    assert!((x[0] - 1.0).abs() < 1e-9);
    assert!((x[1] - 2.0).abs() < 1e-9);
    assert!((x[2] - 3.0).abs() < 1e-9);
}

#[test]
fn solver_handles_max_practical_size() {
    // Diagonal 25x25 system: entry i of the diagonal is i+1, solution i - 12.
    let n = 25usize;
    let mut a: Vec<i64> = vec![0; n * n];
    let mut b: Vec<i64> = vec![0; n];
    for i in 0..n {
        let d = (i + 1) as i64;
        let x = i as i64 - 12;
        a[i * n + i] = d;
        b[i] = d * x;
    }
    let sol = linsolve(n, &a, n, &b).expect("diagonal system");
    for i in 0..n {
        let want = i as i128 - 12;
        assert_eq!(sol.num[i], want * sol.den);
    }
}

#[test]
fn solver_handles_dense_system() {
    // Dense, diagonally dominant 12x12 system with a known integer
    // solution; off-diagonal entries cycle through -3..=3.
    let n = 12usize;
    let mut a: Vec<i64> = vec![0; n * n];
    for i in 0..n {
        for j in 0..n {
            a[i * n + j] = if i == j {
                40
            } else {
                ((i * 5 + j * 3) % 7) as i64 - 3
            };
        }
    }
    let x_true: Vec<i64> = (0..n).map(|i| i as i64 - 6).collect();
    let mut b: Vec<i64> = vec![0; n];
    for i in 0..n {
        for j in 0..n {
            b[i] += a[i * n + j] * x_true[j];
        }
    }
    let sol = linsolve(n, &a, n, &b).expect("diagonally dominant system");
    for i in 0..n {
        assert_eq!(sol.num[i], x_true[i] as i128 * sol.den);
    }
}

#[test]
fn solver_handles_banded_max_size() {
    // Tridiagonal 25x25 system (diagonal 2, neighbors 1) with a known
    // integer solution; its leading minors grow only linearly, so the
    // exact arithmetic stays comfortably inside 128 bits.
    let n = 25usize;
    let mut a: Vec<i64> = vec![0; n * n];
    for i in 0..n {
        a[i * n + i] = 2;
        if i + 1 < n {
            a[i * n + i + 1] = 1;
            a[(i + 1) * n + i] = 1;
        }
    }
    let x_true: Vec<i64> = (0..n).map(|i| (i % 5) as i64 - 2).collect();
    let mut b: Vec<i64> = vec![0; n];
    for i in 0..n {
        for j in 0..n {
            b[i] += a[i * n + j] * x_true[j];
        }
    }
    let sol = linsolve(n, &a, n, &b).expect("banded system");
    for i in 0..n {
        assert_eq!(sol.num[i], x_true[i] as i128 * sol.den);
    }
}

#[test]
fn solver_respects_stride() {
    // 2x2 system embedded in a wider buffer (stride 4).
    let a: Vec<i64> = vec![3, 0, 9, 9, 0, 2, 9, 9];
    let b: Vec<i64> = vec![6, 10];
    let sol = linsolve(2, &a, 4, &b).expect("strided system");
    assert_eq!(sol.num[0], 2 * sol.den);
    assert_eq!(sol.num[1], 5 * sol.den);
}

#[test]
fn solver_two_by_two_cases() {
    // Negative determinant: [[1, 2], [3, 4]] has det -2; x = [1, 2].
    let a: Vec<i64> = vec![1, 2, 3, 4];
    let b: Vec<i64> = vec![5, 11];
    let sol = linsolve(2, &a, 2, &b).expect("invertible 2x2 system");
    // The representation is pinned: denominator |det| = 2, numerators the
    // sign-flipped Cramer numerators.
    assert_eq!(sol.den, 2);
    assert_eq!(sol.num[0], 2);
    assert_eq!(sol.num[1], 4);
    assert_eq!(sol.num[0], sol.den);
    assert_eq!(sol.num[1], 2 * sol.den);

    // Zero determinant: proportional rows fail.
    let a: Vec<i64> = vec![1, 2, 2, 4];
    let b: Vec<i64> = vec![3, 5];
    assert!(linsolve(2, &a, 2, &b).is_none());
}

#[test]
fn solver_zero_row_fails() {
    let a: Vec<i64> = vec![1, 2, 3, 0, 0, 0, 4, 5, 6];
    let b: Vec<i64> = vec![1, 1, 1];
    assert!(linsolve(3, &a, 3, &b).is_none());
}

#[test]
fn solver_identical_rows_fail() {
    // Consistent duplicate rows: a solution space exists, but the
    // elimination meets a zero pivot and reports failure.
    let a: Vec<i64> = vec![1, 2, 3, 1, 2, 3, 4, 5, 6];
    let b: Vec<i64> = vec![1, 1, 1];
    assert!(linsolve(3, &a, 3, &b).is_none());
}

#[test]
fn solver_contradictory_rows_fail() {
    // The same coefficients with different right-hand sides: no exact
    // solution exists at all.
    let a: Vec<i64> = vec![1, 2, 3, 1, 2, 3, 4, 5, 6];
    let b: Vec<i64> = vec![1, 2, 1];
    assert!(linsolve(3, &a, 3, &b).is_none());
}

#[test]
fn solver_empty_system_succeeds() {
    let a: Vec<i64> = vec![];
    let b: Vec<i64> = vec![];
    let sol = linsolve(0, &a, 0, &b).expect("empty system");
    assert!(sol.num.is_empty());
    assert_eq!(sol.den, 1);
}

#[test]
fn solver_single_equation() {
    // A 1x1 system is solved directly: numerator b, denominator a.
    let a: Vec<i64> = vec![5];
    let b: Vec<i64> = vec![10];
    let sol = linsolve(1, &a, 1, &b).expect("1x1 system");
    assert_eq!(sol.num[0], 10);
    assert_eq!(sol.den, 5);
    assert_eq!(sol.num[0], 2 * sol.den);

    // A negative coefficient flips both signs to keep the denominator
    // positive.
    let a: Vec<i64> = vec![-4];
    let b: Vec<i64> = vec![8];
    let sol = linsolve(1, &a, 1, &b).expect("1x1 system");
    assert_eq!(sol.num[0], -8);
    assert_eq!(sol.den, 4);
}

#[test]
fn solver_single_zero_coefficient_fails() {
    let a: Vec<i64> = vec![0];
    let b: Vec<i64> = vec![7];
    assert!(linsolve(1, &a, 1, &b).is_none());
}

#[test]
fn pivoting_permuted_rows_same_solution() {
    let a1: Vec<i64> = vec![2, 1, 0, 1, 3, 1, 0, 1, 2];
    let b1: Vec<i64> = vec![4, 10, 8];
    // The same system with its rows in a different order.
    let a2: Vec<i64> = vec![0, 1, 2, 2, 1, 0, 1, 3, 1];
    let b2: Vec<i64> = vec![8, 4, 10];
    let s1 = linsolve(3, &a1, 3, &b1).expect("original order");
    let s2 = linsolve(3, &a2, 3, &b2).expect("permuted order");
    let x1 = solution_as_f64(&s1.num, s1.den);
    let x2 = solution_as_f64(&s2.num, s2.den);
    for i in 0..3 {
        assert!((x1[i] - x2[i]).abs() < 1e-9);
        // The rationals agree exactly as well.
        assert_eq!(s1.num[i] * s2.den, s2.num[i] * s1.den);
    }
}

#[test]
fn multiply_by_identity_is_unchanged() {
    // 2x3 matrix times the 3x3 identity.
    let m: Vec<i64> = vec![1, -2, 3, 4, 5, -6];
    let id3: Vec<i64> = vec![1, 0, 0, 0, 1, 0, 0, 0, 1];
    let mut res: Vec<i64> = vec![99; 6];
    multiply_mat(&m, &id3, &mut res, 2, 3, 3);
    assert_eq!(res, m);

    // The 2x2 identity times the same matrix.
    let id2: Vec<i64> = vec![1, 0, 0, 1];
    let mut res2: Vec<i64> = vec![99; 6];
    multiply_mat(&id2, &m, &mut res2, 2, 2, 3);
    assert_eq!(res2, m);
}

#[test]
fn multiply_known_product() {
    // [[1,2],[3,4]] * [[5,6],[7,8]] == [[19,22],[43,50]].
    let m1: Vec<i64> = vec![1, 2, 3, 4];
    let m2: Vec<i64> = vec![5, 6, 7, 8];
    let mut res: Vec<i64> = vec![0; 4];
    multiply_mat(&m1, &m2, &mut res, 2, 2, 2);
    assert_eq!(res, vec![19, 22, 43, 50]);
}

#[test]
fn multiply_associativity() {
    // (A*B)*C == A*(B*C), exactly, for small integer matrices.
    let a: Vec<i64> = vec![1, 2, 3, -1, 0, 4]; // 2x3
    let b: Vec<i64> = vec![2, 1, 0, -3, 5, 2]; // 3x2
    let c: Vec<i64> = vec![1, -2, 3, 1]; // 2x2

    let mut ab: Vec<i64> = vec![0; 4];
    multiply_mat(&a, &b, &mut ab, 2, 3, 2);
    let mut ab_c: Vec<i64> = vec![0; 4];
    multiply_mat(&ab, &c, &mut ab_c, 2, 2, 2);

    let mut bc: Vec<i64> = vec![0; 6];
    multiply_mat(&b, &c, &mut bc, 3, 2, 2);
    let mut a_bc: Vec<i64> = vec![0; 4];
    multiply_mat(&a, &bc, &mut a_bc, 2, 3, 2);

    assert_eq!(ab_c, a_bc);
}

#[test]
fn multiply_leaves_tail_untouched() {
    let m1: Vec<i64> = vec![1, 2];
    let m2: Vec<i64> = vec![3, 4];
    let mut res: Vec<i64> = vec![0, 0, 77, 88];
    multiply_mat(&m1, &m2, &mut res, 1, 2, 1);
    assert_eq!(res, vec![11, 0, 77, 88]);
}

fn ncc_value(a: &Vec<i64>, b: &Vec<i64>, n: usize) -> f64 {
    let (c, aa, bb) = normalized_cross_correlation(a, b, n);
    c as f64 / ((aa as f64).sqrt() * (bb as f64).sqrt())
}

#[test]
fn correlation_self_is_one() {
    let a: Vec<i64> = vec![3, -1, 4, 1, -5, 9];
    let r = ncc_value(&a, &a, 6);
    assert!((r - 1.0).abs() < 1e-12);
}

#[test]
fn correlation_lies_in_unit_interval() {
    let cases: Vec<(Vec<i64>, Vec<i64>)> = vec![
        (vec![1, 2, 3], vec![-3, 5, 2]),
        (vec![10, -10, 10], vec![-10, 10, -10]),
        (vec![255, 0, -255, 17], vec![1, 1, 1, 1]),
    ];
    for (a, b) in cases {
        let n = a.len();
        let r = ncc_value(&a, &b, n);
        assert!((-1.0..=1.0).contains(&r));
    }
    // Anti-correlated sequences hit the lower end exactly.
    let a: Vec<i64> = vec![2, -2];
    let b: Vec<i64> = vec![-2, 2];
    assert!((ncc_value(&a, &b, 2) + 1.0).abs() < 1e-12);
}

#[test]
fn correlation_zero_magnitude_is_undefined() {
    let a: Vec<i64> = vec![0, 0, 0];
    let b: Vec<i64> = vec![1, 2, 3];
    let (c, aa, bb) = normalized_cross_correlation(&a, &b, 3);
    assert_eq!(aa, 0);
    let r = c as f64 / ((aa as f64).sqrt() * (bb as f64).sqrt());
    assert!(r.is_nan());
}

#[test]
fn extraction_constant_offset_everywhere() {
    // source = denoised + 3 everywhere: every residual is exactly 3.
    let w = 8usize;
    let h = 8usize;
    let denoised_data: Vec<u8> = (0..w * h).map(|i| (i % 100) as u8).collect();
    let source_data: Vec<u8> = denoised_data.iter().map(|&v| v + 3).collect();
    let source = plane(source_data, w, h, w);
    let denoised = plane(denoised_data, w, h, w);

    let coords: Vec<(i64, i64)> = vec![(-1, 0), (0, -1), (-1, -1), (1, -1)];
    let mut buffer: Vec<i64> = vec![0; 8];
    let (val, aux) = extract_ar_row(
        &coords,
        4,
        &source,
        &denoised,
        None,
        None,
        3,
        3,
        &mut buffer,
    );
    assert_eq!(val, 3);
    assert_eq!(&buffer[..4], &[3, 3, 3, 3]);
    // Slots past the coordinate count stay untouched.
    assert_eq!(&buffer[4..], &[0, 0, 0, 0]);
    assert!(aux.is_none());
}

#[test]
fn extraction_auxiliary_average_matches_offset() {
    // A 4x4 chroma-resolution pair with an 8x8 full-resolution pair; the
    // full-resolution residual is 5 everywhere, so the upsampled block
    // average is exactly 5.
    let cw = 4usize;
    let ch = 4usize;
    let den_c: Vec<u8> = (0..cw * ch).map(|i| (i * 2) as u8).collect();
    let src_c: Vec<u8> = den_c.iter().map(|&v| v + 3).collect();
    let source = PixelPlane::new(src_c, cw, ch, cw, 1, 1).expect("chroma plane");
    let denoised = PixelPlane::new(den_c, cw, ch, cw, 1, 1).expect("chroma plane");

    let lw = 8usize;
    let lh = 8usize;
    let den_l: Vec<u8> = (0..lw * lh).map(|i| (i % 50) as u8).collect();
    let src_l: Vec<u8> = den_l.iter().map(|&v| v + 5).collect();
    let alt_source = plane(src_l, lw, lh, lw);
    let alt_denoised = plane(den_l, lw, lh, lw);

    let coords: Vec<(i64, i64)> = vec![(-1, 0)];
    let mut buffer: Vec<i64> = vec![0; 4];
    let (val, aux) = extract_ar_row(
        &coords,
        1,
        &source,
        &denoised,
        Some(&alt_source),
        Some(&alt_denoised),
        2,
        2,
        &mut buffer,
    );
    assert_eq!(val, 3);
    assert_eq!(buffer[0], 3);
    let (diff_sum, count) = aux.expect("alternate pair supplied");
    assert_eq!(count, 4);
    assert_eq!(diff_sum, 5 * count as i64);
    assert!((diff_sum as f64 / count as f64 - 5.0).abs() < 1e-12);
}

#[test]
fn block_mean_clips_at_frame_edge() {
    // 10x10 frame, block anchored at (8, 8): only the 2x2 corner counts.
    let w = 10usize;
    let h = 10usize;
    let mut data: Vec<u8> = vec![1; w * h];
    // The 2x2 corner holds 10, 20, 30, 40; mean 25.
    data[8 * w + 8] = 10;
    data[8 * w + 9] = 20;
    data[9 * w + 8] = 30;
    data[9 * w + 9] = 40;
    let p = plane(data, w, h, w);
    let m = get_block_mean(&p, w, h, 8, 8);
    assert_eq!(m.area, 4);
    assert_eq!(m.sum, 100);
    assert!((m.sum as f64 / m.area as f64 - 25.0).abs() < 1e-12);
}

#[test]
fn noise_variance_clips_at_frame_edge() {
    // Block of 4x4 requested at (6, 7) in an 8x8 frame: clipped to 2x1.
    let w = 8usize;
    let h = 8usize;
    let denoised_data: Vec<u8> = vec![100; w * h];
    let mut source_data: Vec<u8> = vec![100; w * h];
    source_data[7 * w + 6] = 104;
    source_data[7 * w + 7] = 96;
    let source = plane(source_data, w, h, w);
    let denoised = plane(denoised_data, w, h, w);
    let stats = get_noise_var(&source, &denoised, w, h, 6, 7, 4, 4);
    assert_eq!(stats.area, 2);
    assert_eq!(stats.noise_sum, 0);
    assert_eq!(stats.square_sum, 32);
    // Population variance of {+4, -4} is 16.
    let (num, den) = stats.variance_parts();
    assert_eq!(num, 16 * den as i128);
}

#[test]
fn noise_variance_constant_noise_is_zero() {
    let w = 8usize;
    let h = 8usize;
    let denoised_data: Vec<u8> = (0..w * h).map(|i| (i % 30) as u8).collect();
    let source_data: Vec<u8> = denoised_data.iter().map(|&v| v + 7).collect();
    let source = plane(source_data, w, h, w);
    let denoised = plane(denoised_data, w, h, w);
    let stats = get_noise_var(&source, &denoised, w, h, 0, 0, 8, 8);
    assert_eq!(stats.area, 64);
    assert_eq!(stats.noise_sum, 7 * 64);
    assert_eq!(stats.square_sum, 49 * 64);
    let (num, _den) = stats.variance_parts();
    assert_eq!(num, 0);
}

#[test]
fn noise_variance_alternating_closed_form() {
    // Noise alternates between 1 and 3: mean 2, population variance 1.
    let w = 8usize;
    let h = 2usize;
    let denoised_data: Vec<u8> = vec![50; w * h];
    let source_data: Vec<u8> = (0..w * h)
        .map(|i| if i % 2 == 0 { 51 } else { 53 })
        .collect();
    let source = plane(source_data, w, h, w);
    let denoised = plane(denoised_data, w, h, w);
    let stats = get_noise_var(&source, &denoised, w, h, 0, 0, 8, 2);
    assert_eq!(stats.area, 16);
    assert_eq!(stats.noise_sum, 2 * 16);
    assert_eq!(stats.square_sum, (1 + 9) * 8);
    let (num, den) = stats.variance_parts();
    assert_eq!(num, den as i128);
}

#[test]
fn end_to_end_checkerboard_scenario() {
    // 8x8 pair with source = denoised + checkerboard of +2/-2: the block
    // mean of the source equals the block mean of the denoised plane (the
    // noise mean is 0), and the noise variance is exactly 4.
    let w = 8usize;
    let h = 8usize;
    let denoised_data: Vec<u8> = (0..w * h).map(|i| 100 + (i % 7) as u8).collect();
    let source_data: Vec<u8> = denoised_data
        .iter()
        .enumerate()
        .map(|(i, &v)| {
            let row = i / w;
            let col = i % w;
            if (row + col) % 2 == 0 {
                v + 2
            } else {
                v - 2
            }
        })
        .collect();
    let source = plane(source_data, w, h, w);
    let denoised = plane(denoised_data, w, h, w);

    let mean_src = get_block_mean(&source, w, h, 0, 0);
    let mean_den = get_block_mean(&denoised, w, h, 0, 0);
    assert_eq!(mean_src.area, 64);
    assert_eq!(mean_den.area, 64);
    // noise mean is 0, so the sums agree exactly.
    assert_eq!(mean_src.sum, mean_den.sum);

    let stats = get_noise_var(&source, &denoised, w, h, 0, 0, 8, 8);
    assert_eq!(stats.noise_sum, 0);
    assert_eq!(stats.square_sum, 4 * 64);
    let (num, den) = stats.variance_parts();
    assert_eq!(num, 4 * den as i128);
    let variance = num as f64 / den as f64;
    assert!((variance - 4.0).abs() < 1e-12);
}

#[test]
fn plane_rejects_inconsistent_dimensions() {
    // Buffer too small for height * stride.
    assert!(PixelPlane::new(vec![0; 10], 4, 4, 4, 0, 0).is_none());
    // Stride below width.
    assert!(PixelPlane::new(vec![0; 16], 4, 4, 2, 0, 0).is_none());
    // Zero width.
    assert!(PixelPlane::new(vec![0; 16], 0, 4, 4, 0, 0).is_none());
    // Decimation beyond one level.
    assert!(PixelPlane::new(vec![0; 16], 4, 4, 4, 2, 0).is_none());
    // A consistent plane passes.
    assert!(PixelPlane::new(vec![0; 16], 4, 4, 4, 1, 1).is_some());
}
