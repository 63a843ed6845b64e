use trixel::matrix::TritMatrix;
use trixel::render::{
    cell_pixel_origin, paint_trigrid, pixel_in_triangle, tri_forward_neighbors, AnchorRenderer, CellPaint,
    MockFontEngine, FontEngine, MockRenderer, RenderError, TriAnchorRenderer,
};
use trixel::trigrid::TriGrid;

fn rgb_at(img: &trixel::render::RgbBuffer, x: u32, y: u32) -> [u8; 3] {
    img.pixels[(y * img.width + x) as usize]
}

#[test]
fn pixel_in_up_triangle_apex() {
    let w = 20;
    let h = 20;
    assert!(pixel_in_triangle(10, 1, w, h, true), "Pixel near up-triangle apex should be inside");
}

#[test]
fn pixel_in_up_triangle_base() {
    let w = 20;
    let h = 20;
    assert!(pixel_in_triangle(10, 19, w, h, true));
    assert!(pixel_in_triangle(3, 16, w, h, true));
    assert!(!pixel_in_triangle(0, 19, w, h, true));
}

#[test]
fn pixel_outside_up_triangle() {
    let w = 20;
    let h = 20;
    assert!(!pixel_in_triangle(0, 0, w, h, true));
    assert!(!pixel_in_triangle(19, 0, w, h, true));
}

#[test]
fn pixel_in_down_triangle() {
    let w = 20;
    let h = 20;
    assert!(pixel_in_triangle(10, 0, w, h, false));
    assert!(pixel_in_triangle(10, 19, w, h, false));
}

#[test]
fn pixel_in_triangle_agrees_with_single_precision_off_the_edges() {
    // Away from the triangle's edges the exact test and the single-precision
    // one agree; on an edge the exact test counts the pixel as inside.
    for &s in &[4u32, 8, 10, 12, 16, 20, 24, 32, 40] {
        for dy in 0..s {
            for dx in 0..s {
                for &up in &[true, false] {
                    let (x2, d, h) = (2 * dx as u64 * s as u64, dy as u64, s as u64);
                    let (lo, hi) = if up { (s as u64 * (h - d), s as u64 * (h + d)) } else { (s as u64 * d, s as u64 * (2 * h - d)) };
                    let on_edge = x2 == lo || x2 == hi;
                    let fx = dx as f32 / s as f32;
                    let fy = dy as f32 / s as f32;
                    let half = if up { 0.5 * fy } else { 0.5 * (1.0 - fy) };
                    let f = fx >= 0.5 - half && fx <= 0.5 + half;
                    if on_edge {
                        assert!(pixel_in_triangle(dx, dy, s, s, up), "s={s} dx={dx} dy={dy} up={up}");
                    } else {
                        assert_eq!(pixel_in_triangle(dx, dy, s, s, up), f, "s={s} dx={dx} dy={dy} up={up}");
                    }
                }
            }
        }
    }
}

#[test]
fn tri_render_empty_grid_errors() {
    let grid = TriGrid::zeros(0, 0);
    assert!(TriAnchorRenderer::render_trigrid(&grid, 10, [128, 128, 128]).is_err());
}

#[test]
fn tri_render_zero_cell_size_errors() {
    let grid = TriGrid::zeros(10, 20);
    assert!(TriAnchorRenderer::render_trigrid(&grid, 0, [128, 128, 128]).is_err());
}

#[test]
fn tri_render_error_variants_and_background() {
    assert_eq!(TriAnchorRenderer::render_trigrid(&TriGrid::zeros(0, 3), 4, [1, 2, 3]), Err(RenderError::EmptyMatrix));
    assert_eq!(TriAnchorRenderer::render_trigrid(&TriGrid::zeros(2, 3), 0, [1, 2, 3]), Err(RenderError::ZeroModuleSize));
    let mut grid = TriGrid::zeros(1, 2);
    grid.set(0, 0, 1);
    grid.set(1, 0, 9);
    let img = TriAnchorRenderer::render_trigrid(&grid, 4, [10, 20, 30]).unwrap();
    assert_eq!((img.width, img.height), (6, 4));
    // the down-triangle painted later covers the up-triangle's apex
    assert_eq!(rgb_at(&img, 2, 0), [128, 128, 128]);
    // inside the up-triangle only
    assert_eq!(rgb_at(&img, 2, 2), [10, 20, 30]);
    // outside both triangles the background stays white
    assert_eq!(rgb_at(&img, 0, 0), [255, 255, 255]);
    assert_eq!(rgb_at(&img, 5, 3), [255, 255, 255]);
}

#[test]
fn paint_trigrid_later_cells_win() {
    let colors = vec![[1, 1, 1], [2, 2, 2]];
    let img = paint_trigrid(1, 2, 4, &colors);
    // pixel (3, 2) lies on the shared edge of both triangles, and the second wins
    assert!(pixel_in_triangle(3, 2, 4, 4, true));
    assert!(pixel_in_triangle(1, 2, 4, 4, false));
    assert_eq!(rgb_at(&img, 3, 2), [2, 2, 2]);
    // pixel (1, 3) lies in the first triangle only
    assert!(pixel_in_triangle(1, 3, 4, 4, true));
    assert_eq!(rgb_at(&img, 1, 3), [1, 1, 1]);
}

#[test]
fn halftone_plan_priorities() {
    // 12 x 20: rows 5..7 and columns 8..12 lie outside the anchors
    let mut grid = TriGrid::zeros(12, 20);
    grid.set(8, 5, 1);
    grid.set(9, 5, 2);
    grid.set(0, 0, 2);
    grid.set(3, 0, 1);
    let mut mask = vec![vec![None; 20]; 12];
    mask[0][1] = Some(0);
    mask[5][9] = Some(2);
    mask[5][10] = Some(7);
    let plan = TriAnchorRenderer::halftone_plan(&grid, 8, &mask).unwrap();
    assert_eq!(plan.len(), 240);
    assert_eq!(plan[0], CellPaint::Flat([255, 255, 255]));
    assert_eq!(plan[1], CellPaint::Flat([0, 0, 0]));
    assert_eq!(plan[2], CellPaint::Flat([0, 0, 0]));
    assert_eq!(plan[3], CellPaint::Flat([128, 128, 128]));
    assert_eq!(plan[5 * 20 + 8], CellPaint::Relight(1));
    assert_eq!(plan[5 * 20 + 9], CellPaint::Glass);
    assert_eq!(plan[5 * 20 + 10], CellPaint::Flat([128, 128, 128]));
    assert_eq!(plan[6 * 20 + 11], CellPaint::Relight(0));
    assert_eq!(TriAnchorRenderer::halftone_plan(&grid, 0, &mask), Err(RenderError::ZeroModuleSize));
    assert_eq!(TriAnchorRenderer::halftone_plan(&TriGrid::zeros(0, 4), 8, &mask), Err(RenderError::EmptyMatrix));
}

#[test]
fn tri_neighbors_up_triangle_has_up_to_3() {
    let neighbors = tri_forward_neighbors(2, 2, 10, 10);
    assert!(!neighbors.is_empty() && neighbors.len() <= 3, "Up triangle mid-grid should have 1-3 neighbors, got {}", neighbors.len());
}

#[test]
fn tri_neighbors_down_triangle_has_up_to_3() {
    let neighbors = tri_forward_neighbors(3, 2, 10, 10);
    assert!(!neighbors.is_empty() && neighbors.len() <= 3, "Down triangle mid-grid should have 1-3 neighbors, got {}", neighbors.len());
}

#[test]
fn tri_neighbors_bottom_right_corner_fewer() {
    let neighbors = tri_forward_neighbors(9, 9, 10, 10);
    assert_eq!(neighbors.len(), 0, "Bottom-right corner should have 0 forward neighbors");
}

#[test]
fn tri_neighbors_weights_sum_leq_one() {
    for row in 0..10 {
        for col in 0..10 {
            let neighbors = tri_forward_neighbors(col, row, 10, 10);
            let sum: f32 = neighbors.iter().map(|n| n.weight_eighths as f32 / 8.0).sum();
            assert!(sum <= 1.01, "Weights at ({},{}) sum to {} > 1.0", col, row, sum);
        }
    }
}

#[test]
fn tri_neighbors_all_within_bounds() {
    let rows = 10;
    let cols = 10;
    for row in 0..rows {
        for col in 0..cols {
            let neighbors = tri_forward_neighbors(col, row, rows, cols);
            for n in &neighbors {
                assert!(n.row < rows && n.col < cols, "Neighbor ({},{}) out of bounds for grid {}×{}", n.col, n.row, cols, rows);
            }
        }
    }
}

#[test]
fn tri_neighbors_exact_lists() {
    let up = tri_forward_neighbors(2, 2, 10, 10);
    assert_eq!(up.iter().map(|n| (n.col, n.row, n.weight_eighths)).collect::<Vec<_>>(), vec![(3, 2, 3), (2, 3, 3), (3, 3, 2)]);
    let down = tri_forward_neighbors(3, 2, 10, 10);
    assert_eq!(down.iter().map(|n| (n.col, n.row, n.weight_eighths)).collect::<Vec<_>>(), vec![(4, 2, 3), (3, 3, 3), (2, 3, 2)]);
}

#[test]
fn module_renderers_fill_blocks() {
    let mut m = TritMatrix::zeros(2, 1);
    m.set(0, 0, 2);
    m.set(1, 0, 1);
    let img = MockRenderer::render_png(&m, 3, [9, 8, 7]).unwrap();
    assert_eq!((img.width, img.height), (6, 3));
    assert_eq!(rgb_at(&img, 2, 2), [255, 255, 255]);
    assert_eq!(rgb_at(&img, 3, 0), [9, 8, 7]);
    let img2 = AnchorRenderer::render_png(&m, 3, [9, 8, 7]).unwrap();
    assert_eq!(img, img2);
    assert_eq!(MockRenderer::render_png(&TritMatrix::zeros(0, 1), 3, [0, 0, 0]), Err(RenderError::EmptyMatrix));
    assert_eq!(MockRenderer::render_png(&m, 0, [0, 0, 0]), Err(RenderError::ZeroModuleSize));
    assert!(MockFontEngine::string_to_constraints("hi", 1, 1).is_empty());
}

#[test]
fn tri_render_correct_dimensions() {
    let mut grid = TriGrid::zeros(10, 20);
    grid.set(0, 0, 1);

    let img = TriAnchorRenderer::render_trigrid(&grid, 12, [128, 128, 128]).unwrap();

    assert_eq!(img.height, 10 * 12);
    // Width: (20 * 12) / 2 + 12/2 = 120 + 6 = 126
    assert_eq!(img.width, (20 * 12) / 2 + 12 / 2);
}

#[test]
fn tri_render_state0_is_black() {
    let mut grid = TriGrid::zeros(8, 12);
    grid.set(6, 4, 0);

    let img = TriAnchorRenderer::render_trigrid(&grid, 20, [128, 128, 128]).unwrap();

    let (px_x, px_y) = cell_pixel_origin(6, 4, 20, 20);
    let is_up = TriGrid::is_up(6, 4);

    let mut found_black = false;
    for dy in 0..20 {
        for dx in 0..20 {
            if pixel_in_triangle(dx, dy, 20, 20, is_up) && px_x + dx < img.width && px_y + dy < img.height {
                let px = rgb_at(&img, px_x + dx, px_y + dy);
                assert_eq!(px, [0, 0, 0], "State 0 triangle pixel should be black, got {:?}", px);
                found_black = true;
                break;
            }
        }
        if found_black {
            break;
        }
    }
    assert!(found_black, "Should find at least one pixel inside the triangle");
}

#[test]
fn tri_render_state2_is_white() {
    let mut grid = TriGrid::zeros(8, 12);
    grid.set(6, 4, 2);

    let img = TriAnchorRenderer::render_trigrid(&grid, 20, [128, 128, 128]).unwrap();

    let (px_x, px_y) = cell_pixel_origin(6, 4, 20, 20);
    let is_up = TriGrid::is_up(6, 4);

    let center_dx = 10u32;
    let center_dy = if is_up { 14 } else { 6 };
    if px_x + center_dx < img.width && px_y + center_dy < img.height {
        assert!(pixel_in_triangle(center_dx, center_dy, 20, 20, is_up), "Center sample must be inside triangle");
        let px = rgb_at(&img, px_x + center_dx, px_y + center_dy);
        assert_eq!(px, [255, 255, 255], "State 2 triangle should be white, got {:?}", px);
    }
}
