use trixel::codec::{MockCodec, TernaryCodec};
use trixel::ecc::MockEcc;
use trixel::matrix::TritMatrix;
use trixel::render::{MockRenderer, RgbBuffer, TriAnchorRenderer};
use trixel::solver::{MatrixSolver, MockSolver};
use trixel::tri_anchor::{tri_corner_positions, TRI_ANCHOR_COLS, TRI_ANCHOR_PATTERNS, TRI_ANCHOR_ROWS};
use trixel::tri_gauss_solver::TriGaussSolver;
use trixel::vision::{binary_mask, LumaImage, LuminanceBands, MockVision, TriCvPipeline, VisionError};

/// Build a synthetic RGB image from a trit matrix using known luminance values
/// that land squarely inside the default `LuminanceBands`.
fn synth_image(matrix: &TritMatrix, module_size: u32) -> RgbBuffer {
    let w = matrix.width as u32 * module_size;
    let h = matrix.height as u32 * module_size;
    let mut img = RgbBuffer { width: w, height: h, pixels: vec![[0u8; 3]; (w * h) as usize] };
    for gy in 0..matrix.height {
        for gx in 0..matrix.width {
            let trit = matrix.get(gx, gy).unwrap();
            let lum: u8 = match trit {
                0 => 20,
                1 => 128,
                2 => 230,
                _ => 128,
            };
            let px_x = gx as u32 * module_size;
            let px_y = gy as u32 * module_size;
            for dy in 0..module_size {
                for dx in 0..module_size {
                    img.pixels[((px_y + dy) * w + px_x + dx) as usize] = [lum, lum, lum];
                }
            }
        }
    }
    img
}

fn min_square_side(n: usize) -> usize {
    let s = (n as f64).sqrt().ceil() as usize;
    if s * s >= n { s } else { s + 1 }
}

#[test]
fn vision_roundtrip() {
    let mut expected = TritMatrix::zeros(4, 4);
    expected.set(0, 0, 0);
    expected.set(1, 0, 1);
    expected.set(2, 0, 2);
    expected.set(3, 0, 1);
    expected.set(0, 1, 2);
    expected.set(1, 1, 0);

    let img = synth_image(&expected, 10);
    let extracted = MockVision::extract_matrix(&img, 10).unwrap();
    assert_eq!(extracted, expected);
}

#[test]
fn vision_bad_dimensions() {
    let img = RgbBuffer { width: 15, height: 15, pixels: vec![[0u8; 3]; 225] };
    assert!(MockVision::extract_matrix(&img, 4).is_err());
}

#[test]
fn vision_bad_dimensions_reports_sizes() {
    let img = LumaImage { width: 15, height: 15, pixels: vec![0; 225] };
    assert_eq!(
        MockVision::extract_matrix_from_luma(&img, 4),
        Err(VisionError::BadDimensions { width: 15, height: 15, module_size: 4 })
    );
}

#[test]
fn vision_empty_image() {
    let img = RgbBuffer { width: 0, height: 0, pixels: vec![] };
    assert_eq!(MockVision::extract_matrix(&img, 4), Err(VisionError::EmptyImage));
    assert_eq!(MockVision::get_normalized_debug_view(&img), Err(VisionError::EmptyImage));
    let gray = LumaImage { width: 0, height: 0, pixels: vec![] };
    assert_eq!(MockVision::extract_matrix_from_luma(&gray, 4), Err(VisionError::EmptyImage));
    assert_eq!(MockVision::debug_view_from_luma(gray), Err(VisionError::EmptyImage));
}

#[test]
fn vision_guard_band_reads_as_erasure() {
    // A module of luminance 80 lies between the state 0 and state 1 bands.
    let img = LumaImage { width: 2, height: 2, pixels: vec![80; 4] };
    let m = MockVision::extract_matrix_from_luma(&img, 2).unwrap();
    assert_eq!(m.width, 1);
    assert_eq!(m.height, 1);
    assert_eq!(m.data, vec![3]);
}

#[test]
fn vision_module_average() {
    // Average of 0, 0, 200, 200 is 100: a guard band value.
    let img = LumaImage { width: 2, height: 2, pixels: vec![0, 0, 200, 200] };
    let m = MockVision::extract_matrix_from_luma(&img, 2).unwrap();
    assert_eq!(m.data, vec![3]);
    // Average of 100, 104, 104, 104 is 103: state 1.
    let img = LumaImage { width: 2, height: 2, pixels: vec![100, 104, 104, 104] };
    let m = MockVision::extract_matrix_from_luma(&img, 2).unwrap();
    assert_eq!(m.data, vec![1]);
}

#[test]
fn normalized_debug_view_is_identity_copy() {
    let img = LumaImage { width: 3, height: 1, pixels: vec![1, 2, 3] };
    let view = MockVision::debug_view_from_luma(img.clone()).unwrap();
    assert_eq!(view, img);
}

#[test]
fn default_bands_values() {
    let b = LuminanceBands::default();
    assert_eq!(b.state_0_upper, 51);
    assert_eq!(b.state_1_lower, 102);
    assert_eq!(b.state_1_upper, 152);
    assert_eq!(b.state_2_lower, 204);
    let n = LuminanceBands::new_default();
    assert_eq!(n.state_0_upper, 51);
    assert_eq!(n.state_2_lower, 204);
}

#[test]
fn default_bands_quantize() {
    let b = LuminanceBands::default();
    assert_eq!(b.quantize(0), 0);
    assert_eq!(b.quantize(51), 0);
    assert_eq!(b.quantize(52), 3);
    assert_eq!(b.quantize(101), 3);
    assert_eq!(b.quantize(102), 1);
    assert_eq!(b.quantize(152), 1);
    assert_eq!(b.quantize(153), 3);
    assert_eq!(b.quantize(203), 3);
    assert_eq!(b.quantize(204), 2);
    assert_eq!(b.quantize(255), 2);
}

#[test]
fn calibrated_bands_midpoints() {
    let b = LuminanceBands::calibrate(10, 100, 250);
    assert_eq!(b.state_0_upper, 55);
    assert_eq!(b.state_1_lower, 56);
    assert_eq!(b.state_1_upper, 175);
    assert_eq!(b.state_2_lower, 176);
    // Calibrated levels read back as their own states.
    assert_eq!(b.quantize(10), 0);
    assert_eq!(b.quantize(100), 1);
    assert_eq!(b.quantize(250), 2);
    // No guard bands are left.
    for lum in 0..=255u8 {
        assert_ne!(b.quantize(lum), 3);
    }
}

#[test]
fn calibrated_bands_saturate_at_top() {
    let b = LuminanceBands::calibrate(255, 255, 255);
    assert_eq!(b.state_0_upper, 255);
    assert_eq!(b.state_1_lower, 255);
    assert_eq!(b.state_2_lower, 255);
    assert_eq!(b.quantize(255), 0);
}

#[test]
fn extract_trigrid_digital_roundtrip() {
    let data = b"hi";
    let trits = MockCodec::encode_bytes(data).unwrap();
    let rows = 12;
    let cols = 16;

    let grid = TriGaussSolver::resolve_trigrid(&trits, rows, cols, &[]).unwrap();

    let cell_h = 20u32;
    let img = TriAnchorRenderer::render_trigrid(&grid, cell_h, [128, 128, 128]).unwrap();
    let extracted = TriCvPipeline::extract_trigrid_digital(&img, rows, cols, cell_h).unwrap();

    for &(ac, ar, pi) in &tri_corner_positions(rows, cols) {
        let pattern = &TRI_ANCHOR_PATTERNS[pi];
        for dr in 0..TRI_ANCHOR_ROWS {
            for dc in 0..TRI_ANCHOR_COLS {
                let expected = pattern[dr][dc];
                let got = extracted.get(ac + dc, ar + dr).unwrap_or(255);
                assert_eq!(
                    expected, got,
                    "Anchor mismatch at ({},{}) pattern[{}][{}]: expected {}, got {}",
                    ac + dc, ar + dr, dr, dc, expected, got
                );
            }
        }
    }
}

#[test]
fn extract_trigrid_digital_reads_every_cell() {
    let trits = MockCodec::encode_bytes(b"ok").unwrap();
    let rows = 16;
    let cols = 24;
    let grid = TriGaussSolver::resolve_trigrid(&trits, rows, cols, &[]).unwrap();
    let cell_h = 24u32;
    let img = TriAnchorRenderer::render_trigrid(&grid, cell_h, [128, 128, 128]).unwrap();
    let extracted = TriCvPipeline::extract_trigrid_digital(&img, rows, cols, cell_h).unwrap();
    assert_eq!(extracted, grid);
}

#[test]
fn extract_trigrid_digital_empty_image() {
    let img = RgbBuffer { width: 0, height: 10, pixels: vec![] };
    assert_eq!(TriCvPipeline::extract_trigrid_digital(&img, 12, 16, 20), Err(VisionError::EmptyImage));
    let gray = LumaImage { width: 0, height: 10, pixels: vec![] };
    assert_eq!(TriCvPipeline::extract_trigrid_from_luma(&gray, 12, 16, 20), Err(VisionError::EmptyImage));
}

#[test]
fn full_pipeline_roundtrip() {
    let data = b"Phase 1 works!";
    let module_size: u32 = 10;
    let accent = [128u8, 128, 128];

    let trits = MockCodec::encode_bytes(data).unwrap();
    let ecc_capacity: f32 = 0.3;
    let total = ((12 + trits.len()) as f32 / (1.0 - ecc_capacity)).ceil() as usize;
    let with_parity = MockEcc::apply_parity_total(&trits, total).unwrap();

    let side = min_square_side(with_parity.len());
    let matrix = MockSolver::resolve_matrix(&with_parity, side, &[]).unwrap();

    let img = MockRenderer::render_png(&matrix, module_size, accent).unwrap();
    let extracted = MockVision::extract_matrix(&img, module_size).unwrap();
    let clean = MockEcc::correct_errors(&extracted.data).unwrap();
    let decoded = MockCodec::decode_trits(&clean).unwrap();
    assert_eq!(decoded, data, "round-trip failed");
}

#[test]
fn binary_mask_thresholds_strictly_above() {
    let img = LumaImage { width: 2, height: 2, pixels: vec![10, 100, 101, 255] };
    let m = binary_mask(&img, 100);
    assert_eq!(m, LumaImage { width: 2, height: 2, pixels: vec![0, 0, 255, 255] });
}

#[test]
fn luminance_of_gray_rgb_pixels_is_their_level() {
    // Gray pixels keep their level; the view has one value per pixel.
    let img = RgbBuffer { width: 3, height: 1, pixels: vec![[20, 20, 20], [128, 128, 128], [230, 230, 230]] };
    let view = MockVision::get_normalized_debug_view(&img).unwrap();
    assert_eq!(view, LumaImage { width: 3, height: 1, pixels: vec![20, 128, 230] });
}

#[test]
fn luminance_weighs_green_over_red_over_blue() {
    let img = RgbBuffer { width: 3, height: 1, pixels: vec![[255, 0, 0], [0, 255, 0], [0, 0, 255]] };
    let view = MockVision::get_normalized_debug_view(&img).unwrap();
    assert_eq!(view.pixels.len(), 3);
    assert!(view.pixels[1] > view.pixels[0]);
    assert!(view.pixels[0] > view.pixels[2]);
}

#[test]
fn trigrid_drawn_in_three_gray_levels_reads_back_from_luminance() {
    let trits = MockCodec::encode_bytes(b"tri").unwrap();
    let rows = 16;
    let cols = 24;
    let grid = TriGaussSolver::resolve_trigrid(&trits, rows, cols, &[]).unwrap();
    let cell_h = 18u32;
    let img = TriAnchorRenderer::render_trigrid(&grid, cell_h, [120, 120, 120]).unwrap();
    // Gray pixels: the red channel is the luminance.
    let gray = LumaImage { width: img.width, height: img.height, pixels: img.pixels.iter().map(|p| p[0]).collect() };
    let extracted = TriCvPipeline::extract_trigrid_from_luma(&gray, rows, cols, cell_h).unwrap();
    assert_eq!(extracted, grid);
}
