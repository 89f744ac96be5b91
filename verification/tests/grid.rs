use gravity_edge_bundling::grid::{
    calculate_forces, cell_corners, crop_grid, generate_kernel_padded, interleave, neighbour_span,
    pad_grid, transpose, wrapped_offset,
};

#[test]
fn transpose_swaps_rows_and_columns() {
    // 3 columns, 2 rows
    let grid = [1, 2, 3, 4, 5, 6];
    assert_eq!(transpose(&grid, 3, 2), vec![1, 4, 2, 5, 3, 6]);
}

#[test]
fn transpose_twice_is_identity() {
    let grid: Vec<u32> = (0..20).collect();
    let once = transpose(&grid, 5, 4);
    let twice = transpose(&once, 4, 5);
    assert_eq!(twice, grid);
}

#[test]
fn transpose_reads_only_the_grid() {
    let data = [1, 2, 3, 4, 9, 9];
    assert_eq!(transpose(&data, 2, 2), vec![1, 3, 2, 4]);
    assert_eq!(transpose::<u8>(&[], 0, 7), Vec::<u8>::new());
}

#[test]
fn pad_puts_grid_in_top_left_quarter() {
    let grid = [1, 2, 3, 4];
    let padded = pad_grid(&grid, 2, 2, 0);
    assert_eq!(
        padded,
        vec![1, 2, 0, 0, 3, 4, 0, 0, 0, 0, 0, 0, 0, 0, 0, 0]
    );
}

#[test]
fn crop_of_pad_is_identity() {
    let grid: Vec<i32> = (1..=6).collect();
    let padded = pad_grid(&grid, 3, 2, -1);
    assert_eq!(padded.len(), 24);
    assert_eq!(crop_grid(&padded, 3, 2), grid);
}

#[test]
fn crop_takes_top_left_quarter() {
    let padded: Vec<u8> = (0..16).collect();
    assert_eq!(crop_grid(&padded, 2, 2), vec![0, 1, 4, 5]);
}

#[test]
fn interleave_alternates() {
    assert_eq!(interleave(&[1, 2, 3], &[10, 20, 30]), vec![1, 10, 2, 20, 3, 30]);
    assert_eq!(interleave(&[1], &[10, 20]), vec![1, 10]);
    assert_eq!(interleave::<u8>(&[], &[]), Vec::<u8>::new());
}

#[test]
fn neighbour_span_inside_and_at_ends() {
    assert_eq!(neighbour_span(4, 1), (0, 2, 2));
    assert_eq!(neighbour_span(4, 0), (0, 1, 1));
    assert_eq!(neighbour_span(4, 3), (2, 3, 1));
    assert_eq!(neighbour_span(1, 0), (0, 0, 1));
}

#[test]
fn test_gradient_forces() {
    let width = 4;
    let height = 4;
    let mut phi = vec![0.0f32; width * height];
    for y in 0..height {
        for x in 0..width {
            phi[y * width + x] = x as f32;
        }
    }

    let (fx, _fy) = calculate_forces(width, height, &phi, |hi: f32, lo: f32, div: usize| {
        (hi - lo) / div as f32
    });
    // Under F = grad(Phi), the force in the x direction is +1.0
    assert!((fx[1 * width + 1] - 1.0).abs() < 1e-5);
    assert!((fx[1 * width + 2] - 1.0).abs() < 1e-5);
}

#[test]
fn gradient_stencil_on_integers() {
    // 3 by 2 potential; slope records (upper, lower, divisor)
    let phi = [10, 20, 40, 100, 200, 400];
    let (fx, fy) = calculate_forces(3, 2, &phi, |hi: i32, lo: i32, div: usize| (hi - lo) * 10 + div as i32);
    assert_eq!(fx, vec![101, 302, 201, 1001, 3002, 2001]);
    assert_eq!(fy, vec![901, 1801, 3601, 901, 1801, 3601]);
}

#[test]
fn cell_corners_clamp_at_the_border() {
    assert_eq!(cell_corners(4, 3, 1, 1), (5, 6, 9, 10));
    assert_eq!(cell_corners(4, 3, 3, 1), (7, 7, 11, 11));
    assert_eq!(cell_corners(4, 3, 3, 2), (11, 11, 11, 11));
    assert_eq!(cell_corners(1, 1, 0, 0), (0, 0, 0, 0));
}

#[test]
fn wrapped_offsets() {
    assert_eq!(wrapped_offset(4, 0), 0);
    assert_eq!(wrapped_offset(4, 3), 3);
    assert_eq!(wrapped_offset(4, 4), -4);
    assert_eq!(wrapped_offset(4, 7), -1);
}

#[test]
fn kernel_is_laid_out_on_the_periodic_grid() {
    let kernel = generate_kernel_padded(2, 1, |dx: i64, dy: i64| (dx, dy));
    assert_eq!(
        kernel,
        vec![(0, 0), (1, 0), (-2, 0), (-1, 0), (0, -1), (1, -1), (-2, -1), (-1, -1)]
    );
}

#[test]
fn kernel_values_follow_distance() {
    let potential_max = 16.0f32;
    let gravity = 1.0f32;
    let kernel = generate_kernel_padded(2, 2, |dx: i64, dy: i64| {
        let d = ((dx * dx + dy * dy) as f32).sqrt();
        let term = if d <= 0.0 { potential_max } else { (gravity / d).min(potential_max) };
        -term
    });
    assert_eq!(kernel.len(), 16);
    assert_eq!(kernel[0], -16.0);
    assert!((kernel[1] + 1.0).abs() < 1e-6);
    // column 3 stands for offset -1
    assert_eq!(kernel[1], kernel[3]);
    assert!((kernel[5] + 1.0 / 2f32.sqrt()).abs() < 1e-6);
}
