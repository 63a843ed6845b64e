//! Reading trits back from a grayscale image.
//!
//! The image is a row-major buffer of 8-bit luminance values. Luminance is
//! quantized into trit states by bands; the gaps between the bands are guard
//! bands that read as erasures (value 3).
use vstd::prelude::*;
use crate::matrix::TritMatrix;
use crate::render::RgbBuffer;
use crate::tri_anchor::{
    TRI_ANCHOR_COLS, TRI_ANCHOR_PATTERNS, TRI_ANCHOR_ROWS, corner_origin, pattern_cell,
    tri_corner_positions,
};
use crate::tri_gauss_solver::anchors_placed;
use crate::trigrid::{TriGrid, spec_is_up};

verus! {

/// Why an image could not be read.
#[derive(Debug, Clone, PartialEq, Eq)]
pub enum VisionError {
    /// The image is not a whole number of modules.
    BadDimensions { width: u32, height: u32, module_size: u32 },
    /// No anchors were found.
    NoAnchors,
    /// The image has no pixels.
    EmptyImage,
    /// The luminance bands could not be calibrated.
    CalibrationFailed,
}

/// A grayscale image: `pixels[y * width + x]` is the luminance at `(x, y)`.
#[derive(Debug, Clone, PartialEq, Eq)]
pub struct LumaImage {
    pub width: u32,
    pub height: u32,
    pub pixels: Vec<u8>,
}

impl LumaImage {
    /// One luminance value per pixel.
    pub open spec fn wf(&self) -> bool {
        &&& self.pixels@.len() == self.width * self.height
        &&& self.width * self.height <= usize::MAX
    }

    /// The luminance at `(x, y)`.
    pub open spec fn pixel(&self, x: int, y: int) -> u8 {
        self.pixels@[y * self.width + x]
    }

    /// The luminance at `(x, y)`, which must lie inside the image.
    pub fn get_pixel(&self, x: u32, y: u32) -> (v: u8)
        requires
            self.wf(),
            x < self.width,
            y < self.height,
        ensures
            v == self.pixel(x as int, y as int),
    {
        proof {
            crate::trigrid::lemma_cell_index(self.height as int, self.width as int, x as int, y as int);
        }
        let w = self.width as usize;
        let idx = (y as usize) * w + (x as usize);
        self.pixels[idx]
    }
}

/// The 8-bit luminance that the `image` crate computes for a `width ×
/// height` RGB image with `pixels` (row-major), one value per pixel.
pub uninterp spec fn rgb_luma(width: u32, height: u32, pixels: Seq<[u8; 3]>) -> Seq<u8>;

/// `g` is the grayscale image that the `image` crate makes of `rgb`.
pub open spec fn is_luma_of(g: LumaImage, rgb: RgbBuffer) -> bool {
    &&& g.width == rgb.width
    &&& g.height == rgb.height
    &&& g.pixels@ == rgb_luma(rgb.width, rgb.height, rgb.pixels@)
}

/// Converts with `image::DynamicImage::to_luma8` on the `ImageRgb8` image
/// that `image::RgbImage::from_raw` builds from the pixels. Claimed: the
/// result has the same dimensions, one luminance per pixel, and its values
/// are `rgb_luma` of the input; how each value is computed (a color-space
/// aware weighting of the channels) is left unsaid.
#[verifier::external_body]
fn luma_of(image: &RgbBuffer) -> (g: LumaImage)
    requires
        image.wf(),
        3 * (image.width * image.height) <= usize::MAX,
        3 * image.width <= usize::MAX,
    ensures
        g.width == image.width,
        g.height == image.height,
        g.pixels@ == rgb_luma(image.width, image.height, image.pixels@),
        g.wf(),
{
    let rgb = image::RgbImage::from_raw(image.width, image.height, image.pixels.concat()).unwrap();
    let gray = image::DynamicImage::ImageRgb8(rgb).to_luma8();
    LumaImage { width: image.width, height: image.height, pixels: gray.into_raw() }
}

/// Luminance band thresholds that quantize grayscale pixels into trit
/// states; the gaps between the bands are guard bands (erasures).
///
/// Default bands (percentage of the 0–255 range): state 0 in 0–20 %
/// (0–51), state 1 in 40–60 % (102–152), state 2 in 80–100 % (204–255).
#[derive(Debug, Clone)]
pub struct LuminanceBands {
    /// Upper bound (inclusive) of the state 0 (black) band.
    pub state_0_upper: u8,
    /// Lower bound (inclusive) of the state 1 (mid) band.
    pub state_1_lower: u8,
    /// Upper bound (inclusive) of the state 1 (mid) band.
    pub state_1_upper: u8,
    /// Lower bound (inclusive) of the state 2 (white) band.
    pub state_2_lower: u8,
}

/// The trit (or erasure 3) that `lum` reads as under `b`.
pub open spec fn spec_quantize(b: LuminanceBands, lum: u8) -> u8 {
    if lum <= b.state_0_upper {
        0
    } else if b.state_1_lower <= lum && lum <= b.state_1_upper {
        1
    } else if lum >= b.state_2_lower {
        2
    } else {
        3
    }
}

/// The default bands.
pub open spec fn default_bands() -> LuminanceBands {
    LuminanceBands { state_0_upper: 51, state_1_lower: 102, state_1_upper: 152, state_2_lower: 204 }
}

impl Default for LuminanceBands {
    fn default() -> (r: Self)
        ensures
            r == default_bands(),
    {
        LuminanceBands { state_0_upper: 51, state_1_lower: 102, state_1_upper: 152, state_2_lower: 204 }
    }
}

/// `a + 1`, saturating at 255.
pub open spec fn sat_inc(a: u8) -> u8 {
    if a == 255 { 255 } else { (a + 1) as u8 }
}

impl LuminanceBands {
    /// The default bands.
    pub fn new_default() -> (r: Self)
        ensures
            r == default_bands(),
    {
        LuminanceBands { state_0_upper: 51, state_1_lower: 102, state_1_upper: 152, state_2_lower: 204 }
    }

    /// Quantize a grayscale value into a trit (0, 1, 2) or an erasure (3).
    pub fn quantize(&self, lum: u8) -> (r: u8)
        ensures
            r == spec_quantize(*self, lum),
    {
        if lum <= self.state_0_upper {
            0
        } else if lum >= self.state_1_lower && lum <= self.state_1_upper {
            1
        } else if lum >= self.state_2_lower {
            2
        } else {
            3
        }
    }

    /// Bands calibrated from measured luminances of the three states:
    /// thresholds at the midpoints, with no guard bands.
    pub fn calibrate(state_0_lum: u8, state_1_lum: u8, state_2_lum: u8) -> (r: Self)
        ensures
            r == calibrated(state_0_lum, state_1_lum, state_2_lum),
            r.state_0_upper == (state_0_lum + state_1_lum) / 2,
            r.state_1_lower == sat_inc(((state_0_lum + state_1_lum) / 2) as u8),
            r.state_1_upper == (state_1_lum + state_2_lum) / 2,
            r.state_2_lower == sat_inc(((state_1_lum + state_2_lum) / 2) as u8),
    {
        let mid_01 = ((state_0_lum as u16 + state_1_lum as u16) / 2) as u8;
        let mid_12 = ((state_1_lum as u16 + state_2_lum as u16) / 2) as u8;
        LuminanceBands {
            state_0_upper: mid_01,
            state_1_lower: if mid_01 == 255 { 255 } else { mid_01 + 1 },
            state_1_upper: mid_12,
            state_2_lower: if mid_12 == 255 { 255 } else { mid_12 + 1 },
        }
    }
}

// ---------------------------------------------------------------------------
// Square modules
// ---------------------------------------------------------------------------

/// `Σ_{dx < n} pixel(x0 + dx, y)`.
pub open spec fn row_sum(img: LumaImage, x0: int, y: int, n: int) -> int
    decreases n,
{
    if n <= 0 {
        0
    } else {
        row_sum(img, x0, y, n - 1) + img.pixel(x0 + n - 1, y)
    }
}

/// `Σ_{dy < k} Σ_{dx < m} pixel(x0 + dx, y0 + dy)`.
pub open spec fn block_sum(img: LumaImage, x0: int, y0: int, m: int, k: int) -> int
    decreases k,
{
    if k <= 0 {
        0
    } else {
        block_sum(img, x0, y0, m, k - 1) + row_sum(img, x0, y0 + k - 1, m)
    }
}

/// The average luminance (rounded down) of module `(gx, gy)` of size `m`.
pub open spec fn module_luminance(img: LumaImage, gx: int, gy: int, m: int) -> int {
    block_sum(img, gx * m, gy * m, m, m) / (m * m)
}

/// Sums of at most `n` luminances stay below `256 · n`.
proof fn lemma_row_sum_bound(img: LumaImage, x0: int, y: int, n: int)
    ensures
        0 <= row_sum(img, x0, y, n) <= 255 * (if n > 0 { n } else { 0 }),
    decreases n,
{
    if n > 0 {
        lemma_row_sum_bound(img, x0, y, n - 1);
    }
}

proof fn lemma_block_sum_bound(img: LumaImage, x0: int, y0: int, m: int, k: int)
    requires
        m >= 0,
    ensures
        0 <= block_sum(img, x0, y0, m, k) <= 255 * m * (if k > 0 { k } else { 0 }),
    decreases k,
{
    if k > 0 {
        lemma_block_sum_bound(img, x0, y0, m, k - 1);
        lemma_row_sum_bound(img, x0, y0 + k - 1, m);
        assert(255 * m * (k - 1) + 255 * m == 255 * m * k) by (nonlinear_arith);
    }
}

/// The average luminance of the `m × m` module at grid position `(gx, gy)`.
fn sample_module_luminance(img: &LumaImage, gx: u32, gy: u32, m: u32) -> (v: u8)
    requires
        img.wf(),
        m > 0,
        (gx + 1) * m <= img.width,
        (gy + 1) * m <= img.height,
    ensures
        v as int == module_luminance(*img, gx as int, gy as int, m as int),
{
    proof {
        assert(gx * m + m <= img.width && gy * m + m <= img.height) by (nonlinear_arith)
            requires
                (gx + 1) * m <= img.width,
                (gy + 1) * m <= img.height,
        ;
    }
    let px_x = gx * m;
    let px_y = gy * m;
    let ghost x0 = px_x as int;
    let ghost y0 = px_y as int;
    let mut sum: u128 = 0;
    let mut dy: u32 = 0;
    while dy < m
        invariant
            img.wf(),
            0 <= dy <= m,
            px_x + m <= img.width,
            px_y + m <= img.height,
            x0 == px_x,
            y0 == px_y,
            sum as int == block_sum(*img, x0, y0, m as int, dy as int),
            sum <= 255 * (m as u128) * (dy as u128),
        decreases m - dy,
    {
        let mut dx: u32 = 0;
        let ghost before = sum as int;
        while dx < m
            invariant
                img.wf(),
                0 <= dy < m,
                0 <= dx <= m,
                px_x + m <= img.width,
                px_y + m <= img.height,
                x0 == px_x,
                y0 == px_y,
                before == block_sum(*img, x0, y0, m as int, dy as int),
                before <= 255 * (m as int) * (dy as int),
                sum as int == before + row_sum(*img, x0, y0 + dy, dx as int),
                sum <= 255 * (m as u128) * (dy as u128) + 255 * (dx as u128),
            decreases m - dx,
        {
            let p = img.get_pixel(px_x + dx, px_y + dy);
            proof {
                assert(sum + 255 <= 255 * (m as u128) * (dy as u128) + 255 * (dx as u128) + 255);
                assert(255 * (m as u128) * (dy as u128) + 255 * (dx as u128) + 255 <= 255 * (m as u128) * (m as u128)) by (nonlinear_arith)
                    requires
                        dy < m,
                        dx < m,
                ;
                assert(255 * (m as u128) * (m as u128) <= 255 * 0xffff_ffffu128 * 0xffff_ffffu128) by (nonlinear_arith)
                    requires
                        m <= 0xffff_ffffu32,
                ;
            }
            sum = sum + p as u128;
            dx = dx + 1;
        }
        proof {
            assert(255 * (m as int) * (dy as int) + 255 * (m as int) == 255 * (m as int) * (dy + 1)) by (nonlinear_arith);
        }
        dy = dy + 1;
    }
    proof {
        assert((m as u128) * (m as u128) > 0) by (nonlinear_arith)
            requires
                m > 0,
        ;
        assert((m as u128) * (m as u128) <= 0xffff_ffffu128 * 0xffff_ffffu128) by (nonlinear_arith)
            requires
                m <= 0xffff_ffffu32,
        ;
    }
    let count = (m as u128) * (m as u128);
    proof {
        assert(sum / count <= 255) by (nonlinear_arith)
            requires
                sum <= 255 * (m as u128) * (m as u128),
                count == (m as u128) * (m as u128),
                m > 0,
        ;
    }
    (sum / count) as u8
}

/// The binary mask of `image` at `threshold`: pixels brighter than the
/// threshold become 255, the others 0.
pub fn binary_mask(image: &LumaImage, threshold: u8) -> (r: LumaImage)
    requires
        image.wf(),
    ensures
        r.width == image.width,
        r.height == image.height,
        r.wf(),
        forall|i: int|
            0 <= i < r.pixels@.len() ==> #[trigger] r.pixels@[i] == (if image.pixels@[i] > threshold {
                255u8
            } else {
                0u8
            }),
{
    let mut pixels: Vec<u8> = Vec::new();
    let mut i: usize = 0;
    while i < image.pixels.len()
        invariant
            0 <= i <= image.pixels@.len(),
            pixels@.len() == i,
            forall|j: int|
                0 <= j < i ==> #[trigger] pixels@[j] == (if image.pixels@[j] > threshold {
                    255u8
                } else {
                    0u8
                }),
        decreases image.pixels@.len() - i,
    {
        let v: u8 = if image.pixels[i] > threshold { 255 } else { 0 };
        pixels.push(v);
        i = i + 1;
    }
    LumaImage { width: image.width, height: image.height, pixels }
}

/// What reading the modules of `image` gives: `EmptyImage` for an image
/// without pixels, `BadDimensions` when it is not a whole number of
/// `m × m` modules, and otherwise the matrix of module averages quantized
/// with the default bands.
pub open spec fn module_read(image: LumaImage, m: u32, r: Result<TritMatrix, VisionError>) -> bool {
    if image.width == 0 || image.height == 0 {
        r == Err::<TritMatrix, VisionError>(VisionError::EmptyImage)
    } else if image.width % m != 0 || image.height % m != 0 {
        r == Err::<TritMatrix, VisionError>(
            VisionError::BadDimensions { width: image.width, height: image.height, module_size: m },
        )
    } else {
        r matches Ok(mtx) && {
            &&& mtx.width == image.width / m
            &&& mtx.height == image.height / m
            &&& mtx.wf()
            &&& forall|gx: int, gy: int|
                0 <= gx < mtx.width && 0 <= gy < mtx.height ==> #[trigger] mtx.cell(gx, gy) == spec_quantize(
                    default_bands(),
                    module_luminance(image, gx, gy, m as int) as u8,
                )
        }
    }
}

/// Reads a digitally rendered image of square modules with the default
/// bands.
pub struct MockVision;

impl MockVision {
    /// Extract the trit matrix from an RGB image: its luminance, as the
    /// `image` crate computes it, read by [`MockVision::extract_matrix_from_luma`].
    pub fn extract_matrix(image: &RgbBuffer, module_pixel_size: u32) -> (r: Result<TritMatrix, VisionError>)
        requires
            image.wf(),
            3 * (image.width * image.height) <= usize::MAX,
            3 * image.width <= usize::MAX,
            module_pixel_size > 0 || image.width == 0 || image.height == 0,
        ensures
            exists|g: LumaImage| #[trigger] is_luma_of(g, *image) && module_read(g, module_pixel_size, r),
    {
        let gray = luma_of(image);
        let r = Self::extract_matrix_from_luma(&gray, module_pixel_size);
        assert(is_luma_of(gray, *image));
        r
    }

    /// Extract the trit matrix from a grayscale image: one cell per `m × m`
    /// module, the module's average luminance quantized with the default
    /// bands.
    pub fn extract_matrix_from_luma(image: &LumaImage, module_pixel_size: u32) -> (r: Result<TritMatrix, VisionError>)
        requires
            image.wf(),
            module_pixel_size > 0 || image.width == 0 || image.height == 0,
        ensures
            module_read(*image, module_pixel_size, r),
    {
        let img_w = image.width;
        let img_h = image.height;
        if img_w == 0 || img_h == 0 {
            return Err(VisionError::EmptyImage);
        }
        if img_w % module_pixel_size != 0 || img_h % module_pixel_size != 0 {
            return Err(VisionError::BadDimensions { width: img_w, height: img_h, module_size: module_pixel_size });
        }
        let grid_w = img_w / module_pixel_size;
        let grid_h = img_h / module_pixel_size;
        let m = module_pixel_size;
        proof {
            assert(grid_w * grid_h <= img_w * img_h) by (nonlinear_arith)
                requires
                    grid_w == img_w / m,
                    grid_h == img_h / m,
                    m > 0,
            ;
        }
        let mut matrix = TritMatrix::zeros(grid_w as usize, grid_h as usize);
        let bands = LuminanceBands::new_default();
        let mut gy: u32 = 0;
        while gy < grid_h
            invariant
                image.wf(),
                m == module_pixel_size,
                m > 0,
                img_w == image.width,
                img_h == image.height,
                grid_w == img_w / m,
                grid_h == img_h / m,
                img_w % m == 0,
                img_h % m == 0,
                bands == default_bands(),
                matrix.width == grid_w,
                matrix.height == grid_h,
                matrix.wf(),
                0 <= gy <= grid_h,
                forall|x: int, y: int|
                    0 <= x < grid_w && 0 <= y < gy ==> #[trigger] matrix.cell(x, y) == spec_quantize(
                        default_bands(),
                        module_luminance(*image, x, y, m as int) as u8,
                    ),
            decreases grid_h - gy,
        {
            let mut gx: u32 = 0;
            while gx < grid_w
                invariant
                    image.wf(),
                    m == module_pixel_size,
                    m > 0,
                    img_w == image.width,
                    img_h == image.height,
                    grid_w == img_w / m,
                    grid_h == img_h / m,
                    img_w % m == 0,
                    img_h % m == 0,
                    bands == default_bands(),
                    matrix.width == grid_w,
                    matrix.height == grid_h,
                    matrix.wf(),
                    0 <= gy < grid_h,
                    0 <= gx <= grid_w,
                    forall|x: int, y: int|
                        0 <= x < grid_w && 0 <= y < gy ==> #[trigger] matrix.cell(x, y) == spec_quantize(
                            default_bands(),
                            module_luminance(*image, x, y, m as int) as u8,
                        ),
                    forall|x: int| 0 <= x < gx ==> #[trigger] matrix.cell(x, gy as int) == spec_quantize(
                        default_bands(),
                        module_luminance(*image, x, gy as int, m as int) as u8,
                    ),
                decreases grid_w - gx,
            {
                proof {
                    assert((gx + 1) * m <= img_w && (gy + 1) * m <= img_h) by (nonlinear_arith)
                        requires
                            gx < grid_w,
                            gy < grid_h,
                            grid_w == img_w / m,
                            grid_h == img_h / m,
                            img_w % m == 0,
                            img_h % m == 0,
                            m > 0,
                    {
                        vstd::arithmetic::div_mod::lemma_fundamental_div_mod(img_w as int, m as int);
                        vstd::arithmetic::div_mod::lemma_fundamental_div_mod(img_h as int, m as int);
                    }
                }
                let avg = sample_module_luminance(image, gx, gy, m);
                let q = bands.quantize(avg);
                let ghost before = matrix;
                matrix.set(gx as usize, gy as usize, q);
                proof {
                    assert forall|x: int, y: int|
                        0 <= x < grid_w && 0 <= y < grid_h && (x != gx || y != gy) implies #[trigger] matrix.cell(x, y)
                        == before.cell(x, y) by {
                        crate::trigrid::lemma_cell_index(grid_h as int, grid_w as int, x, y);
                        crate::trigrid::lemma_cell_index(grid_h as int, grid_w as int, gx as int, gy as int);
                        crate::modular::lemma_index_row_col(y, x, grid_w as int);
                        crate::modular::lemma_index_row_col(gy as int, gx as int, grid_w as int);
                    }
                    crate::trigrid::lemma_cell_index(grid_h as int, grid_w as int, gx as int, gy as int);
                }
                gx = gx + 1;
            }
            gy = gy + 1;
        }
        Ok(matrix)
    }

    /// The grayscale view of an RGB image, as the `image` crate computes it,
    /// or `EmptyImage` for an image without pixels.
    pub fn get_normalized_debug_view(image: &RgbBuffer) -> (r: Result<LumaImage, VisionError>)
        requires
            image.wf(),
            3 * (image.width * image.height) <= usize::MAX,
            3 * image.width <= usize::MAX,
        ensures
            image.width == 0 && image.height == 0 ==> r == Err::<LumaImage, VisionError>(VisionError::EmptyImage),
            !(image.width == 0 && image.height == 0) ==> (r matches Ok(v) && is_luma_of(v, *image)),
    {
        let gray = luma_of(image);
        Self::debug_view_from_luma(gray)
    }

    /// The grayscale view itself, or `EmptyImage` for an image without pixels.
    pub fn debug_view_from_luma(gray: LumaImage) -> (r: Result<LumaImage, VisionError>)
        ensures
            r == (if gray.width == 0 && gray.height == 0 {
                Err::<LumaImage, VisionError>(VisionError::EmptyImage)
            } else {
                Ok::<LumaImage, VisionError>(gray)
            }),
    {
        if gray.width == 0 && gray.height == 0 {
            return Err(VisionError::EmptyImage);
        }
        Ok(gray)
    }
}

// ---------------------------------------------------------------------------
// Triangular grids
// ---------------------------------------------------------------------------

/// Pixel column of the centroid of cell column `col` (cells are `w` wide
/// and staggered by `w / 2`).
pub open spec fn centroid_x(col: int, w: int) -> int {
    col * w / 2 + w / 2
}

/// Pixel row of the centroid of cell `(col, row)`: two thirds down an
/// up-triangle, one third down a down-triangle.
pub open spec fn centroid_y(col: int, row: int, h: int) -> int {
    row * h + if spec_is_up(col, row) {
        2 * h / 3
    } else {
        h / 3
    }
}

/// The centroid of the cell lies inside the image.
pub open spec fn centroid_inside(img: LumaImage, col: int, row: int, h: int) -> bool {
    centroid_x(col, h) < img.width && centroid_y(col, row, h) < img.height
}

/// The luminance at the centroid of the cell.
pub open spec fn centroid_lum(img: LumaImage, col: int, row: int, h: int) -> u8 {
    img.pixel(centroid_x(col, h), centroid_y(col, row, h))
}

/// Anchor cell `t` (`0 ≤ t < 160`): corner `t / 40`, pattern row
/// `(t % 40) / 8`, pattern column `t % 8`.
pub open spec fn anchor_cell(t: int, rows: int, cols: int) -> (int, int) {
    (corner_origin(t / 40, rows, cols).0 + t % 8, corner_origin(t / 40, rows, cols).1 + (t % 40) / 8)
}

/// The state anchor cell `t` carries.
pub open spec fn anchor_state(t: int) -> u8 {
    pattern_cell(t / 40, (t % 40) / 8, t % 8)
}

/// The centroid luminances of the first `n` anchor cells that carry state
/// `v` and whose centroid lies inside the image, in order.
pub open spec fn anchor_samples(img: LumaImage, rows: int, cols: int, h: int, v: u8, n: int) -> Seq<u8>
    decreases n,
{
    if n <= 0 {
        Seq::empty()
    } else {
        let prev = anchor_samples(img, rows, cols, h, v, n - 1);
        let (c, r) = anchor_cell(n - 1, rows, cols);
        if anchor_state(n - 1) == v && centroid_inside(img, c, r, h) {
            prev.push(centroid_lum(img, c, r, h))
        } else {
            prev
        }
    }
}

/// The number of elements of `s` that are at most `v`.
pub open spec fn count_le(s: Seq<u8>, v: int) -> nat
    decreases s.len(),
{
    if s.len() == 0 {
        0
    } else {
        count_le(s.drop_last(), v) + if s.last() <= v {
            1nat
        } else {
            0nat
        }
    }
}

/// `m` is the median of `s`: the element at index `len / 2` once sorted.
pub open spec fn is_median(s: Seq<u8>, m: u8) -> bool {
    count_le(s, m - 1) <= s.len() / 2 < count_le(s, m as int)
}

/// The median of `s` (the element at index `len / 2` once sorted).
pub open spec fn median_of(s: Seq<u8>) -> u8 {
    choose|m: u8| is_median(s, m)
}

/// The bands `LuminanceBands::calibrate` builds from three luminances.
pub open spec fn calibrated(s0: u8, s1: u8, s2: u8) -> LuminanceBands {
    LuminanceBands {
        state_0_upper: ((s0 + s1) / 2) as u8,
        state_1_lower: sat_inc(((s0 + s1) / 2) as u8),
        state_1_upper: ((s1 + s2) / 2) as u8,
        state_2_lower: sat_inc(((s1 + s2) / 2) as u8),
    }
}

/// Bands calibrated from the anchor cells of a triangular grid: the medians
/// of the luminances sampled at state 0, 1 and 2 anchor cells; the default
/// bands when some state has no sample inside the image.
pub open spec fn tri_anchor_bands(img: LumaImage, rows: int, cols: int, h: int) -> LuminanceBands {
    let s0 = anchor_samples(img, rows, cols, h, 0, 160);
    let s1 = anchor_samples(img, rows, cols, h, 1, 160);
    let s2 = anchor_samples(img, rows, cols, h, 2, 160);
    if s0.len() == 0 || s1.len() == 0 || s2.len() == 0 {
        default_bands()
    } else {
        calibrated(median_of(s0), median_of(s1), median_of(s2))
    }
}

/// `count_le` grows with `v`, by the elements equal to `v`.
proof fn lemma_count_le_monotone(s: Seq<u8>, a: int, b: int)
    requires
        a <= b,
    ensures
        count_le(s, a) <= count_le(s, b),
    decreases s.len(),
{
    if s.len() > 0 {
        lemma_count_le_monotone(s.drop_last(), a, b);
    }
}

/// Every element is at most 255, and none is negative.
proof fn lemma_count_le_ends(s: Seq<u8>)
    ensures
        count_le(s, 255) == s.len(),
        count_le(s, -1) == 0,
    decreases s.len(),
{
    if s.len() > 0 {
        lemma_count_le_ends(s.drop_last());
    }
}

/// The median is unique.
proof fn lemma_median_unique(s: Seq<u8>, m: u8)
    requires
        is_median(s, m),
    ensures
        median_of(s) == m,
{
    let c = median_of(s);
    assert(is_median(s, c));
    if c < m {
        lemma_count_le_monotone(s, c as int, m - 1);
    } else if c > m {
        lemma_count_le_monotone(s, m as int, c - 1);
    }
}

/// How many elements of `s` equal `v`.
pub open spec fn count_eq(s: Seq<u8>, v: int) -> nat
    decreases s.len(),
{
    if s.len() == 0 {
        0
    } else {
        count_eq(s.drop_last(), v) + if s.last() == v {
            1nat
        } else {
            0nat
        }
    }
}

proof fn lemma_count_le_step(s: Seq<u8>, v: int)
    ensures
        count_le(s, v) == count_le(s, v - 1) + count_eq(s, v),
    decreases s.len(),
{
    if s.len() > 0 {
        lemma_count_le_step(s.drop_last(), v);
    }
}

/// The median of a nonempty sample list, by counting.
fn median(values: &Vec<u8>) -> (m: u8)
    requires
        values@.len() > 0,
    ensures
        is_median(values@, m),
        m == median_of(values@),
{
    let mut hist: Vec<usize> = vec![0usize; 256];
    let mut i: usize = 0;
    while i < values.len()
        invariant
            0 <= i <= values@.len(),
            hist@.len() == 256,
            forall|u: int| 0 <= u < 256 ==> #[trigger] hist@[u] == count_eq(values@.take(i as int), u),
        decreases values@.len() - i,
    {
        let v = values[i] as usize;
        proof {
            assert(values@.take(i + 1).drop_last() =~= values@.take(i as int));
            assert(count_eq(values@.take(i as int), v as int) <= i) by {
                lemma_count_eq_bound(values@.take(i as int), v as int);
            }
        }
        let c = hist[v];
        hist.set(v, c + 1);
        i = i + 1;
    }
    proof {
        assert(values@.take(values@.len() as int) =~= values@);
        lemma_count_le_ends(values@);
    }
    let len = values.len();
    let half = len / 2;
    let mut cum: usize = 0;
    let mut v: usize = 0;
    while v < 256
        invariant
            hist@.len() == 256,
            forall|u: int| 0 <= u < 256 ==> #[trigger] hist@[u] == count_eq(values@, u),
            half == values@.len() / 2,
            len == values@.len(),
            0 <= v <= 256,
            cum == count_le(values@, v - 1),
            cum <= half,
            count_le(values@, 255) == values@.len(),
        decreases 256 - v,
    {
        proof {
            lemma_count_le_step(values@, v as int);
            lemma_count_le_monotone(values@, v as int, 255);
            assert(cum + hist@[v as int] <= len);
        }
        cum = cum + hist[v];
        if cum > half {
            proof {
                lemma_median_unique(values@, v as u8);
            }
            return v as u8;
        }
        v = v + 1;
    }
    proof {
        assert(false);
    }
    0
}

proof fn lemma_count_eq_bound(s: Seq<u8>, v: int)
    ensures
        count_eq(s, v) <= s.len(),
    decreases s.len(),
{
    if s.len() > 0 {
        lemma_count_eq_bound(s.drop_last(), v);
    }
}

/// The centroid `(x, y)` of cell `(col, row)` in pixels.
fn cell_centroid(col: usize, row: usize, h: u32) -> (p: (u32, u32))
    requires
        col * h <= u32::MAX,
        (row + 1) * h <= u32::MAX,
        2 * h <= u32::MAX,
    ensures
        p.0 == centroid_x(col as int, h as int),
        p.1 == centroid_y(col as int, row as int, h as int),
{
    if h == 0 {
        return (0, 0);
    }
    proof {
        assert(col * h / 2 + h / 2 <= col * h + h) by (nonlinear_arith)
            requires
                h >= 0,
                col >= 0,
        ;
        assert(row * h + 2 * h / 3 <= (row + 1) * h) by (nonlinear_arith)
            requires
                h >= 0,
                row >= 0,
        ;
        assert(col <= col * h && row <= row * h) by (nonlinear_arith)
            requires
                h >= 1,
        ;
    }
    let c = col as u32;
    let r = row as u32;
    let px_x = c * h / 2 + h / 2;
    let py = r * h;
    let px_y = if TriGrid::is_up(col, row) { py + 2 * h / 3 } else { py + h / 3 };
    (px_x, px_y)
}

/// Luminance bands calibrated from the anchor cells of a triangular grid.
fn calibrate_from_tri_anchors(img: &LumaImage, rows: usize, cols: usize, h: u32) -> (b: LuminanceBands)
    requires
        img.wf(),
        rows >= TRI_ANCHOR_ROWS,
        cols >= TRI_ANCHOR_COLS,
        (cols + 1) * h <= u32::MAX,
        (rows + 1) * h <= u32::MAX,
    ensures
        b == tri_anchor_bands(*img, rows as int, cols as int, h as int),
{
    let corners = tri_corner_positions(rows, cols);
    let mut s0: Vec<u8> = Vec::new();
    let mut s1: Vec<u8> = Vec::new();
    let mut s2: Vec<u8> = Vec::new();
    let mut t: usize = 0;
    while t < 160
        invariant
            img.wf(),
            rows >= TRI_ANCHOR_ROWS,
            cols >= TRI_ANCHOR_COLS,
            (cols + 1) * h <= u32::MAX,
            (rows + 1) * h <= u32::MAX,
            forall|k: int|
                0 <= k < 4 ==> (#[trigger] corners[k]).0 == corner_origin(k, rows as int, cols as int).0
                    && corners[k].1 == corner_origin(k, rows as int, cols as int).1 && corners[k].2 == k,
            0 <= t <= 160,
            s0@ == anchor_samples(*img, rows as int, cols as int, h as int, 0, t as int),
            s1@ == anchor_samples(*img, rows as int, cols as int, h as int, 1, t as int),
            s2@ == anchor_samples(*img, rows as int, cols as int, h as int, 2, t as int),
        decreases 160 - t,
    {
        let k = t / 40;
        let dr = (t % 40) / 8;
        let dc = t % 8;
        let (ac, ar, pi) = corners[k];
        let col = ac + dc;
        let row = ar + dr;
        proof {
            assert(col < cols && row < rows);
            assert(col * h <= u32::MAX && (row + 1) * h <= u32::MAX) by (nonlinear_arith)
                requires
                    col < cols,
                    row < rows,
                    (cols + 1) * h <= u32::MAX,
                    (rows + 1) * h <= u32::MAX,
            ;
        }
        proof {
            assert(2 * h <= u32::MAX) by (nonlinear_arith)
                requires
                    (rows + 1) * h <= u32::MAX,
                    rows >= 5,
            ;
        }
        let (px_x, px_y) = cell_centroid(col, row, h);
        let state = TRI_ANCHOR_PATTERNS[pi][dr][dc];
        proof {
            assert(anchor_cell(t as int, rows as int, cols as int) == (col as int, row as int));
            assert(anchor_state(t as int) == state);
        }
        if px_x < img.width && px_y < img.height {
            let lum = img.get_pixel(px_x, px_y);
            if state == 0 {
                s0.push(lum);
            } else if state == 1 {
                s1.push(lum);
            } else if state == 2 {
                s2.push(lum);
            }
        }
        t = t + 1;
    }
    if s0.len() == 0 || s1.len() == 0 || s2.len() == 0 {
        return LuminanceBands::new_default();
    }
    let m0 = median(&s0);
    let m1 = median(&s1);
    let m2 = median(&s2);
    LuminanceBands::calibrate(m0, m1, m2)
}

/// What reading a `rows × cols` triangular grid with cells `cell_h` pixels
/// tall from `image` gives: `EmptyImage` for an image without pixels, and
/// otherwise, for each cell whose centroid lies inside the image, the
/// centroid's luminance quantized with the bands calibrated from the anchor
/// cells (0 for the other cells).
pub open spec fn trigrid_read(
    image: LumaImage,
    rows: usize,
    cols: usize,
    cell_h: u32,
    r: Result<TriGrid, VisionError>,
) -> bool {
    if image.width == 0 || image.height == 0 {
        r == Err::<TriGrid, VisionError>(VisionError::EmptyImage)
    } else {
        r matches Ok(g) && {
            &&& g.rows == rows
            &&& g.cols == cols
            &&& g.wf()
            &&& forall|col: int, row: int|
                0 <= col < cols && 0 <= row < rows ==> #[trigger] g.cell(col, row) == (if centroid_inside(
                    image,
                    col,
                    row,
                    cell_h as int,
                ) {
                    spec_quantize(
                        tri_anchor_bands(image, rows as int, cols as int, cell_h as int),
                        centroid_lum(image, col, row, cell_h as int),
                    )
                } else {
                    0
                })
        }
    }
}

/// Reads triangular grids back from images.
pub struct TriCvPipeline;

impl TriCvPipeline {
    /// Extract a `rows × cols` triangular grid from a digitally rendered RGB
    /// image: its luminance, as the `image` crate computes it, read by
    /// [`TriCvPipeline::extract_trigrid_from_luma`].
    pub fn extract_trigrid_digital(image: &RgbBuffer, rows: usize, cols: usize, cell_h: u32) -> (r: Result<
        TriGrid,
        VisionError,
    >)
        requires
            image.wf(),
            3 * (image.width * image.height) <= usize::MAX,
            3 * image.width <= usize::MAX,
            rows >= TRI_ANCHOR_ROWS,
            cols >= TRI_ANCHOR_COLS,
            rows * cols <= usize::MAX,
            (cols + 1) * cell_h <= u32::MAX,
            (rows + 1) * cell_h <= u32::MAX,
        ensures
            exists|g: LumaImage| #[trigger] is_luma_of(g, *image) && trigrid_read(g, rows, cols, cell_h, r),
    {
        let gray = luma_of(image);
        let r = Self::extract_trigrid_from_luma(&gray, rows, cols, cell_h);
        assert(is_luma_of(gray, *image));
        r
    }

    /// Extract a `rows × cols` triangular grid from a digitally rendered
    /// grayscale image with cells `cell_h` pixels tall (and as wide): each
    /// cell reads the luminance at its centroid, quantized with bands
    /// calibrated from the anchor cells; cells whose centroid lies outside
    /// the image stay 0.
    pub fn extract_trigrid_from_luma(image: &LumaImage, rows: usize, cols: usize, cell_h: u32) -> (r: Result<
        TriGrid,
        VisionError,
    >)
        requires
            image.wf(),
            rows >= TRI_ANCHOR_ROWS,
            cols >= TRI_ANCHOR_COLS,
            rows * cols <= usize::MAX,
            (cols + 1) * cell_h <= u32::MAX,
            (rows + 1) * cell_h <= u32::MAX,
        ensures
            trigrid_read(*image, rows, cols, cell_h, r),
    {
        if image.width == 0 || image.height == 0 {
            return Err(VisionError::EmptyImage);
        }
        let mut grid = TriGrid::zeros(rows, cols);
        let bands = calibrate_from_tri_anchors(image, rows, cols, cell_h);
        let ghost b = tri_anchor_bands(*image, rows as int, cols as int, cell_h as int);
        proof {
            assert forall|c: int, r: int| 0 <= c < cols && 0 <= r < rows implies #[trigger] grid.cell(c, r) == 0 by {
                crate::trigrid::lemma_cell_index(rows as int, cols as int, c, r);
            }
        }
        let mut row: usize = 0;
        while row < rows
            invariant
                image.wf(),
                bands == b,
                grid.rows == rows,
                grid.cols == cols,
                grid.wf(),
                (cols + 1) * cell_h <= u32::MAX,
                (rows + 1) * cell_h <= u32::MAX,
                rows >= 5,
                0 <= row <= rows,
                forall|c: int, r: int|
                    0 <= c < cols && 0 <= r < rows ==> #[trigger] grid.cell(c, r) == (if r < row && centroid_inside(
                        *image,
                        c,
                        r,
                        cell_h as int,
                    ) {
                        spec_quantize(b, centroid_lum(*image, c, r, cell_h as int))
                    } else {
                        0
                    }),
            decreases rows - row,
        {
            let mut col: usize = 0;
            while col < cols
                invariant
                    image.wf(),
                    bands == b,
                    grid.rows == rows,
                    grid.cols == cols,
                    grid.wf(),
                    (cols + 1) * cell_h <= u32::MAX,
                    (rows + 1) * cell_h <= u32::MAX,
                    0 <= row < rows,
                    rows >= 5,
                    0 <= col <= cols,
                    forall|c: int, r: int|
                        0 <= c < cols && 0 <= r < rows ==> #[trigger] grid.cell(c, r) == (if (r < row || (r == row
                            && c < col)) && centroid_inside(*image, c, r, cell_h as int) {
                            spec_quantize(b, centroid_lum(*image, c, r, cell_h as int))
                        } else {
                            0
                        }),
                decreases cols - col,
            {
                proof {
                    assert(col * cell_h <= u32::MAX && (row + 1) * cell_h <= u32::MAX) by (nonlinear_arith)
                        requires
                            col < cols,
                            row < rows,
                            (cols + 1) * cell_h <= u32::MAX,
                            (rows + 1) * cell_h <= u32::MAX,
                    ;
                }
                proof {
                    assert(2 * cell_h <= u32::MAX) by (nonlinear_arith)
                        requires
                            (rows + 1) * cell_h <= u32::MAX,
                            rows >= 1,
                    ;
                }
                let (cx, cy) = cell_centroid(col, row, cell_h);
                if cx < image.width && cy < image.height {
                    let lum = image.get_pixel(cx, cy);
                    let q = bands.quantize(lum);
                    let ghost before = grid;
                    grid.set(col, row, q);
                    proof {
                        assert forall|c: int, r: int| 0 <= c < cols && 0 <= r < rows && (c != col || r != row) implies #[trigger] grid.cell(c, r)
                            == before.cell(c, r) by {
                            crate::trigrid::lemma_cell_index(rows as int, cols as int, c, r);
                            crate::trigrid::lemma_cell_index(rows as int, cols as int, col as int, row as int);
                            crate::modular::lemma_index_row_col(r, c, cols as int);
                            crate::modular::lemma_index_row_col(row as int, col as int, cols as int);
                        }
                        crate::trigrid::lemma_cell_index(rows as int, cols as int, col as int, row as int);
                    }
                }
                col = col + 1;
            }
            row = row + 1;
        }
        Ok(grid)
    }
}

/// The default bands: 0–51 read as 0, 102–152 as 1, 204–255 as 2, and the
/// guard bands between them as erasures.
pub proof fn law_default_bands(lum: u8)
    ensures
        spec_quantize(default_bands(), lum) == (if lum <= 51 {
            0u8
        } else if 102 <= lum <= 152 {
            1u8
        } else if lum >= 204 {
            2u8
        } else {
            3u8
        }),
{
}

/// Bands calibrated from three increasing luminances read each of them back
/// as its own state.
pub proof fn law_calibration_reads_back(s0: u8, s1: u8, s2: u8)
    requires
        s0 < s1 < s2,
    ensures
        spec_quantize(calibrated(s0, s1, s2), s0) == 0,
        spec_quantize(calibrated(s0, s1, s2), s1) == 1,
        spec_quantize(calibrated(s0, s1, s2), s2) == 2,
{
}

/// The luminance that state `v` is drawn with.
pub open spec fn state_lum(l0: u8, l1: u8, l2: u8, v: u8) -> u8 {
    if v == 0 {
        l0
    } else if v == 1 {
        l1
    } else {
        l2
    }
}

/// A row of `n` pixels of one luminance sums to `n` times it.
proof fn lemma_uniform_row(img: LumaImage, x0: int, y: int, n: int, lum: int)
    requires
        0 <= n,
        forall|dx: int| 0 <= dx < n ==> #[trigger] img.pixel(x0 + dx, y) == lum,
    ensures
        row_sum(img, x0, y, n) == n * lum,
    decreases n,
{
    if n > 0 {
        lemma_uniform_row(img, x0, y, n - 1, lum);
        let dx = n - 1;
        assert(img.pixel(x0 + dx, y) == lum);
        let xe = x0 + n - 1;
        assert(xe == x0 + dx);
        assert(row_sum(img, x0, y, n) == row_sum(img, x0, y, n - 1) + img.pixel(xe, y));
        assert((n - 1) * lum + lum == n * lum) by (nonlinear_arith);
    } else {
        assert(n * lum == 0) by (nonlinear_arith)
            requires
                n == 0,
        ;
    }
}

/// `k` rows of `m` pixels of one luminance sum to `k · m` times it.
proof fn lemma_uniform_block(img: LumaImage, x0: int, y0: int, m: int, k: int, lum: int)
    requires
        0 <= k,
        0 <= m,
        forall|dx: int, dy: int| 0 <= dx < m && 0 <= dy < k ==> #[trigger] img.pixel(x0 + dx, y0 + dy) == lum,
    ensures
        block_sum(img, x0, y0, m, k) == k * m * lum,
    decreases k,
{
    if k > 0 {
        lemma_uniform_block(img, x0, y0, m, k - 1, lum);
        assert forall|dx: int| 0 <= dx < m implies #[trigger] img.pixel(x0 + dx, y0 + (k - 1)) == lum by {
            assert(img.pixel(x0 + dx, y0 + (k - 1)) == lum);
        }
        let ye = y0 + k - 1;
        assert(ye == y0 + (k - 1));
        lemma_uniform_row(img, x0, ye, m, lum);
        assert(block_sum(img, x0, y0, m, k) == block_sum(img, x0, y0, m, k - 1) + row_sum(img, x0, ye, m));
        assert((k - 1) * m * lum + m * lum == k * m * lum) by (nonlinear_arith);
    } else {
        assert(k * m * lum == 0) by (nonlinear_arith)
            requires
                k == 0,
        ;
    }
}

/// Reading back what was drawn: when every module of an image is drawn
/// uniformly with a luminance inside its state's default band, each
/// module's average luminance quantizes to the state it was drawn for.
pub proof fn law_module_image_reads_back(img: LumaImage, m: u32, mtx: TritMatrix, l0: u8, l1: u8, l2: u8)
    requires
        img.wf(),
        mtx.wf(),
        m > 0,
        img.width == mtx.width * m,
        img.height == mtx.height * m,
        forall|k: int| 0 <= k < mtx.data@.len() ==> #[trigger] mtx.data@[k] <= 2,
        l0 <= 51,
        102 <= l1 <= 152,
        l2 >= 204,
        forall|x: int, y: int|
            0 <= x < img.width && 0 <= y < img.height ==> #[trigger] img.pixel(x, y) == state_lum(
                l0,
                l1,
                l2,
                mtx.cell(x / (m as int), y / (m as int)),
            ),
    ensures
        forall|gx: int, gy: int|
            0 <= gx < mtx.width && 0 <= gy < mtx.height ==> spec_quantize(
                default_bands(),
                module_luminance(img, gx, gy, m as int) as u8,
            ) == #[trigger] mtx.cell(gx, gy),
{
    let mi = m as int;
    assert forall|gx: int, gy: int| 0 <= gx < mtx.width && 0 <= gy < mtx.height implies spec_quantize(
        default_bands(),
        module_luminance(img, gx, gy, mi) as u8,
    ) == #[trigger] mtx.cell(gx, gy) by {
        let v = mtx.cell(gx, gy);
        let lum = state_lum(l0, l1, l2, v) as int;
        crate::trigrid::lemma_cell_index(mtx.height as int, mtx.width as int, gx, gy);
        assert(v <= 2);
        assert forall|dx: int, dy: int| 0 <= dx < mi && 0 <= dy < mi implies #[trigger] img.pixel(
            gx * mi + dx,
            gy * mi + dy,
        ) == lum by {
            vstd::arithmetic::div_mod::lemma_fundamental_div_mod_converse(gx * mi + dx, mi, gx, dx);
            vstd::arithmetic::div_mod::lemma_fundamental_div_mod_converse(gy * mi + dy, mi, gy, dy);
            assert((gx + 1) * mi <= mtx.width * mi) by (nonlinear_arith)
                requires
                    gx + 1 <= mtx.width,
                    mi > 0,
            ;
            assert((gy + 1) * mi <= mtx.height * mi) by (nonlinear_arith)
                requires
                    gy + 1 <= mtx.height,
                    mi > 0,
            ;
            assert((gx + 1) * mi == gx * mi + mi) by (nonlinear_arith);
            assert((gy + 1) * mi == gy * mi + mi) by (nonlinear_arith);
            assert(0 <= gx * mi && 0 <= gy * mi) by (nonlinear_arith)
                requires
                    gx >= 0,
                    gy >= 0,
                    mi > 0,
            ;
        }
        lemma_uniform_block(img, gx * mi, gy * mi, mi, mi, lum);
        assert(mi * mi * lum / (mi * mi) == lum) by (nonlinear_arith)
            requires
                mi > 0,
        ;
    }
}

/// Every sample taken at anchor cells of state `v` shows the luminance of
/// `v`, when each cell of the grid shows the luminance of its state.
proof fn lemma_anchor_samples_uniform(
    img: LumaImage,
    g: TriGrid,
    h: int,
    v: u8,
    lv: u8,
    l0: u8,
    l1: u8,
    l2: u8,
    n: int,
)
    requires
        g.rows >= 5,
        g.cols >= 8,
        n <= 160,
        anchors_placed(g),
        lv == state_lum(l0, l1, l2, v),
        forall|col: int, row: int|
            0 <= col < g.cols && 0 <= row < g.rows ==> #[trigger] centroid_lum(img, col, row, h) == state_lum(
                l0,
                l1,
                l2,
                g.cell(col, row),
            ),
    ensures
        forall|i: int|
            0 <= i < anchor_samples(img, g.rows as int, g.cols as int, h, v, n).len() ==> #[trigger] anchor_samples(
                img,
                g.rows as int,
                g.cols as int,
                h,
                v,
                n,
            )[i] == lv,
    decreases n,
{
    if n > 0 {
        let rows = g.rows as int;
        let cols = g.cols as int;
        lemma_anchor_samples_uniform(img, g, h, v, lv, l0, l1, l2, n - 1);
        let prev = anchor_samples(img, rows, cols, h, v, n - 1);
        let t = n - 1;
        let c = anchor_cell(t, rows, cols).0;
        let r = anchor_cell(t, rows, cols).1;
        if anchor_state(t) == v && centroid_inside(img, c, r, h) {
            let k = t / 40;
            let dr = (t % 40) / 8;
            let dc = t % 8;
            assert(0 <= k < 4 && 0 <= dr < 5 && 0 <= dc < 8);
            assert(g.cell(corner_origin(k, rows, cols).0 + dc, corner_origin(k, rows, cols).1 + dr) == pattern_cell(
                k,
                dr,
                dc,
            ));
            assert(g.cell(c, r) == v);
            assert(0 <= c < g.cols && 0 <= r < g.rows);
            assert(centroid_lum(img, c, r, h) == state_lum(l0, l1, l2, g.cell(c, r)));
            let cur = prev.push(centroid_lum(img, c, r, h));
            assert(anchor_samples(img, rows, cols, h, v, n) == cur);
            assert forall|i: int| 0 <= i < cur.len() implies #[trigger] cur[i] == lv by {
                if i < prev.len() {
                    assert(cur[i] == prev[i]);
                }
            }
        } else {
            assert(anchor_samples(img, rows, cols, h, v, n) == prev);
        }
    }
}

/// Some anchor cell among the first `n` carries state `v` and lies inside
/// the image: then the samples for `v` are not empty.
proof fn lemma_anchor_samples_nonempty(img: LumaImage, rows: int, cols: int, h: int, v: u8, n: int, t: int)
    requires
        0 <= t < n,
        anchor_state(t) == v,
        centroid_inside(img, anchor_cell(t, rows, cols).0, anchor_cell(t, rows, cols).1, h),
    ensures
        anchor_samples(img, rows, cols, h, v, n).len() > 0,
    decreases n,
{
    if t < n - 1 {
        lemma_anchor_samples_nonempty(img, rows, cols, h, v, n - 1, t);
    }
}

/// The median of a nonempty sequence of equal values is that value.
proof fn lemma_median_of_uniform(s: Seq<u8>, l: u8)
    requires
        s.len() > 0,
        forall|i: int| 0 <= i < s.len() ==> #[trigger] s[i] == l,
    ensures
        median_of(s) == l,
{
    lemma_count_le_uniform(s, l);
    lemma_median_unique(s, l);
}

/// In a sequence of equal values `l`, none is below `l` and all are at most `l`.
proof fn lemma_count_le_uniform(s: Seq<u8>, l: u8)
    requires
        forall|i: int| 0 <= i < s.len() ==> #[trigger] s[i] == l,
    ensures
        count_le(s, l - 1) == 0,
        count_le(s, l as int) == s.len(),
    decreases s.len(),
{
    if s.len() > 0 {
        let t = s.drop_last();
        assert forall|i: int| 0 <= i < t.len() implies #[trigger] t[i] == l by {
            assert(t[i] == s[i]);
        }
        lemma_count_le_uniform(t, l);
        assert(s.last() == s[s.len() - 1]);
    }
}

/// A triangular grid drawn with one luminance per state reads back: when
/// the grid carries its anchor patterns, every cell holds a state, every
/// cell's centroid lies inside the image and shows the luminance of its
/// state, and the luminances rise from state 0 to state 2, reading the grid
/// from the image gives the grid itself.
pub proof fn law_trigrid_image_reads_back(img: LumaImage, g: TriGrid, h: u32, l0: u8, l1: u8, l2: u8)
    requires
        g.wf(),
        g.rows >= TRI_ANCHOR_ROWS,
        g.cols >= TRI_ANCHOR_COLS,
        anchors_placed(g),
        l0 < l1 < l2,
        forall|col: int, row: int|
            0 <= col < g.cols && 0 <= row < g.rows ==> {
                &&& #[trigger] g.cell(col, row) <= 2
                &&& centroid_inside(img, col, row, h as int)
                &&& centroid_lum(img, col, row, h as int) == state_lum(l0, l1, l2, g.cell(col, row))
            },
    ensures
        trigrid_read(img, g.rows, g.cols, h, Ok::<TriGrid, VisionError>(g)),
{
    let rows = g.rows as int;
    let cols = g.cols as int;
    let hi = h as int;
    assert forall|col: int, row: int|
        0 <= col < g.cols && 0 <= row < g.rows implies #[trigger] centroid_lum(img, col, row, hi) == state_lum(
            l0,
            l1,
            l2,
            g.cell(col, row),
        ) by {
        assert(g.cell(col, row) <= 2);
    }
    assert(centroid_inside(img, 0, 0, hi)) by {
        assert(g.cell(0, 0) <= 2);
    }
    // Each state has an inside anchor cell: t = 0 (state 0), t = 20 (state 1), t = 9 (state 2).
    assert(anchor_state(0) == 0 && anchor_state(20) == 1 && anchor_state(9) == 2);
    assert forall|t: int| 0 <= t < 160 implies centroid_inside(
        img,
        #[trigger] anchor_cell(t, rows, cols).0,
        anchor_cell(t, rows, cols).1,
        hi,
    ) by {
        let c = anchor_cell(t, rows, cols).0;
        let r = anchor_cell(t, rows, cols).1;
        assert(0 <= c < g.cols && 0 <= r < g.rows);
        assert(g.cell(c, r) <= 2);
    }
    let s0 = anchor_samples(img, rows, cols, hi, 0, 160);
    let s1 = anchor_samples(img, rows, cols, hi, 1, 160);
    let s2 = anchor_samples(img, rows, cols, hi, 2, 160);
    lemma_anchor_samples_nonempty(img, rows, cols, hi, 0, 160, 0);
    lemma_anchor_samples_nonempty(img, rows, cols, hi, 1, 160, 20);
    lemma_anchor_samples_nonempty(img, rows, cols, hi, 2, 160, 9);
    lemma_anchor_samples_uniform(img, g, hi, 0, l0, l0, l1, l2, 160);
    lemma_anchor_samples_uniform(img, g, hi, 1, l1, l0, l1, l2, 160);
    lemma_anchor_samples_uniform(img, g, hi, 2, l2, l0, l1, l2, 160);
    lemma_median_of_uniform(s0, l0);
    lemma_median_of_uniform(s1, l1);
    lemma_median_of_uniform(s2, l2);
    assert(tri_anchor_bands(img, rows, cols, hi) == calibrated(l0, l1, l2));
    law_calibration_reads_back(l0, l1, l2);
    assert forall|col: int, row: int| 0 <= col < g.cols && 0 <= row < g.rows implies #[trigger] g.cell(col, row) == (
    if centroid_inside(img, col, row, hi) {
        spec_quantize(tri_anchor_bands(img, rows, cols, hi), centroid_lum(img, col, row, hi))
    } else {
        0
    }) by {
        assert(g.cell(col, row) <= 2);
        assert(centroid_lum(img, col, row, hi) == state_lum(l0, l1, l2, g.cell(col, row)));
    }
}

} // verus!
