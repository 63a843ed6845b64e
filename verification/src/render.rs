//! Rendering trit grids into RGB pixel buffers.
//!
//! State 0 is black, state 1 the accent color, state 2 white, anything
//! else (an erasure) mid gray: luminance increases with the state.
use vstd::prelude::*;
use crate::matrix::TritMatrix;
use crate::solver::ConstraintMask;
use crate::trigrid::{TriGrid, spec_is_up};

verus! {

/// Why a grid could not be rendered.
#[derive(Debug, Clone, PartialEq, Eq)]
pub enum RenderError {
    /// The grid has no cells.
    EmptyMatrix,
    /// The module (cell) size is zero.
    ZeroModuleSize,
}

/// An RGB image: `pixels[y * width + x]` is the color at `(x, y)`.
#[derive(Debug, Clone, PartialEq, Eq)]
pub struct RgbBuffer {
    pub width: u32,
    pub height: u32,
    pub pixels: Vec<[u8; 3]>,
}

impl RgbBuffer {
    /// One color per pixel.
    pub open spec fn wf(&self) -> bool {
        &&& self.pixels@.len() == self.width * self.height
        &&& self.width * self.height <= usize::MAX
    }

    /// The color at `(x, y)`.
    pub open spec fn pixel(&self, x: int, y: int) -> [u8; 3] {
        self.pixels@[y * self.width + x]
    }

    /// An image of one color.
    pub fn from_pixel(width: u32, height: u32, color: [u8; 3]) -> (img: Self)
        requires
            width * height <= usize::MAX,
        ensures
            img.width == width,
            img.height == height,
            img.wf(),
            forall|i: int| 0 <= i < img.pixels@.len() ==> #[trigger] img.pixels@[i] == color,
    {
        let n = (width as usize) * (height as usize);
        RgbBuffer { width, height, pixels: vec![color; n] }
    }

    /// Set the color at `(x, y)`, which must lie inside the image.
    pub fn put_pixel(&mut self, x: u32, y: u32, color: [u8; 3])
        requires
            old(self).wf(),
            x < old(self).width,
            y < old(self).height,
        ensures
            final(self).width == old(self).width,
            final(self).height == old(self).height,
            final(self).wf(),
            final(self).pixels@ == old(self).pixels@.update(y * old(self).width + x, color),
    {
        proof {
            crate::trigrid::lemma_cell_index(self.height as int, self.width as int, x as int, y as int);
        }
        let idx = (y as usize) * (self.width as usize) + (x as usize);
        self.pixels.set(idx, color);
    }
}

/// The color of a state: 0 black, 1 the accent, 2 white, otherwise gray.
pub open spec fn state_color(trit: u8, accent: [u8; 3]) -> [u8; 3] {
    if trit == 0 {
        [0u8, 0u8, 0u8]
    } else if trit == 1 {
        accent
    } else if trit == 2 {
        [255u8, 255u8, 255u8]
    } else {
        [128u8, 128u8, 128u8]
    }
}

/// The color of a state.
fn color_of(trit: u8, accent: [u8; 3]) -> (c: [u8; 3])
    ensures
        c == state_color(trit, accent),
{
    if trit == 0 {
        [0u8, 0, 0]
    } else if trit == 1 {
        accent
    } else if trit == 2 {
        [255u8, 255, 255]
    } else {
        [128u8, 128, 128]
    }
}

// ---------------------------------------------------------------------------
// Square modules
// ---------------------------------------------------------------------------

/// Maps text into spatial constraints on the grid.
pub trait FontEngine {
    /// The constraints for `text` starting at `(start_x, start_y)`.
    fn string_to_constraints(text: &str, start_x: usize, start_y: usize) -> Vec<ConstraintMask>;
}

/// A font engine that emits no constraints.
pub struct MockFontEngine;

impl FontEngine for MockFontEngine {
    fn string_to_constraints(text: &str, start_x: usize, start_y: usize) -> (r: Vec<ConstraintMask>)
        ensures
            r@.len() == 0,
    {
        Vec::new()
    }
}

/// Checks shared by the module renderers.
pub open spec fn module_render_ok(matrix: TritMatrix, m: u32, accent: [u8; 3], img: RgbBuffer) -> bool {
    &&& img.width == matrix.width * m
    &&& img.height == matrix.height * m
    &&& img.wf()
    &&& forall|x: int, y: int|
        0 <= x < img.width && 0 <= y < img.height ==> #[trigger] img.pixel(x, y) == state_color(
            matrix.cell(x / m as int, y / m as int),
            accent,
        )
}

/// Each cell becomes an `m × m` block of its state's color.
fn render_modules(matrix: &TritMatrix, module_pixel_size: u32, state_1_rgb: [u8; 3]) -> (r: Result<
    RgbBuffer,
    RenderError,
>)
    requires
        matrix.wf(),
        matrix.width * module_pixel_size <= u32::MAX,
        matrix.height * module_pixel_size <= u32::MAX,
        (matrix.width * module_pixel_size) * (matrix.height * module_pixel_size) <= usize::MAX,
    ensures
        matrix.width == 0 || matrix.height == 0 ==> r == Err::<RgbBuffer, RenderError>(RenderError::EmptyMatrix),
        matrix.width > 0 && matrix.height > 0 && module_pixel_size == 0 ==> r == Err::<RgbBuffer, RenderError>(
            RenderError::ZeroModuleSize,
        ),
        matrix.width > 0 && matrix.height > 0 && module_pixel_size > 0 ==> (r matches Ok(img) && module_render_ok(
            *matrix,
            module_pixel_size,
            state_1_rgb,
            img,
        )),
{
    if matrix.width == 0 || matrix.height == 0 {
        return Err(RenderError::EmptyMatrix);
    }
    if module_pixel_size == 0 {
        return Err(RenderError::ZeroModuleSize);
    }
    let m = module_pixel_size;
    let gw = matrix.width;
    let gh = matrix.height;
    proof {
        assert(gw <= gw * m && gh <= gh * m) by (nonlinear_arith)
            requires
                m >= 1,
        ;
    }
    let img_w = gw as u32 * m;
    let img_h = gh as u32 * m;
    let mut img = RgbBuffer::from_pixel(img_w, img_h, [0u8, 0, 0]);
    let mut y: u32 = 0;
    while y < img_h
        invariant
            matrix.wf(),
            m == module_pixel_size,
            m > 0,
            gw == matrix.width,
            gh == matrix.height,
            img_w == gw * m,
            img_h == gh * m,
            img.width == img_w,
            img.height == img_h,
            img.wf(),
            0 <= y <= img_h,
            forall|xx: int, yy: int|
                0 <= xx < img_w && 0 <= yy < y ==> #[trigger] img.pixel(xx, yy) == state_color(
                    matrix.cell(xx / m as int, yy / m as int),
                    state_1_rgb,
                ),
        decreases img_h - y,
    {
        let mut x: u32 = 0;
        while x < img_w
            invariant
                matrix.wf(),
                m == module_pixel_size,
                m > 0,
                gw == matrix.width,
                gh == matrix.height,
                img_w == gw * m,
                img_h == gh * m,
                img.width == img_w,
                img.height == img_h,
                img.wf(),
                0 <= y < img_h,
                0 <= x <= img_w,
                forall|xx: int, yy: int|
                    0 <= xx < img_w && 0 <= yy < y ==> #[trigger] img.pixel(xx, yy) == state_color(
                        matrix.cell(xx / m as int, yy / m as int),
                        state_1_rgb,
                    ),
                forall|xx: int| 0 <= xx < x ==> #[trigger] img.pixel(xx, y as int) == state_color(
                    matrix.cell(xx / m as int, (y / m) as int),
                    state_1_rgb,
                ),
            decreases img_w - x,
        {
            let gx = (x / m) as usize;
            let gy = (y / m) as usize;
            proof {
                assert(x / m < gw && y / m < gh) by (nonlinear_arith)
                    requires
                        x < gw * m,
                        y < gh * m,
                        m > 0,
                ;
            }
            let trit = match matrix.get(gx, gy) {
                Some(t) => t,
                None => 0,
            };
            let c = color_of(trit, state_1_rgb);
            let ghost before = img;
            img.put_pixel(x, y, c);
            proof {
                assert forall|xx: int, yy: int|
                    0 <= xx < img_w && 0 <= yy < img_h && (xx != x || yy != y) implies #[trigger] img.pixel(xx, yy)
                    == before.pixel(xx, yy) by {
                    crate::trigrid::lemma_cell_index(img_h as int, img_w as int, xx, yy);
                    crate::trigrid::lemma_cell_index(img_h as int, img_w as int, x as int, y as int);
                    crate::modular::lemma_index_row_col(yy, xx, img_w as int);
                    crate::modular::lemma_index_row_col(y as int, x as int, img_w as int);
                }
                crate::trigrid::lemma_cell_index(img_h as int, img_w as int, x as int, y as int);
            }
            x = x + 1;
        }
        y = y + 1;
    }
    Ok(img)
}

/// Renders a matrix as flat-color square modules, without anchors or quiet
/// zones.
pub struct MockRenderer;

impl MockRenderer {
    /// Each cell becomes an `m × m` block: state 0 black, state 1
    /// `state_1_rgb`, state 2 white, other values gray.
    pub fn render_png(matrix: &TritMatrix, module_pixel_size: u32, state_1_rgb: [u8; 3]) -> (r: Result<
        RgbBuffer,
        RenderError,
    >)
        requires
            matrix.wf(),
            matrix.width * module_pixel_size <= u32::MAX,
            matrix.height * module_pixel_size <= u32::MAX,
            (matrix.width * module_pixel_size) * (matrix.height * module_pixel_size) <= usize::MAX,
        ensures
            matrix.width == 0 || matrix.height == 0 ==> r == Err::<RgbBuffer, RenderError>(RenderError::EmptyMatrix),
            matrix.width > 0 && matrix.height > 0 && module_pixel_size == 0 ==> r == Err::<RgbBuffer, RenderError>(
                RenderError::ZeroModuleSize,
            ),
            matrix.width > 0 && matrix.height > 0 && module_pixel_size > 0 ==> (r matches Ok(img)
                && module_render_ok(*matrix, module_pixel_size, state_1_rgb, img)),
    {
        render_modules(matrix, module_pixel_size, state_1_rgb)
    }
}

/// Renders a matrix whose anchors are already in its cells; the rendering
/// is that of `MockRenderer`.
pub struct AnchorRenderer;

impl AnchorRenderer {
    /// Each cell becomes an `m × m` block: state 0 black, state 1
    /// `state_1_rgb`, state 2 white, other values gray.
    pub fn render_png(matrix: &TritMatrix, module_pixel_size: u32, state_1_rgb: [u8; 3]) -> (r: Result<
        RgbBuffer,
        RenderError,
    >)
        requires
            matrix.wf(),
            matrix.width * module_pixel_size <= u32::MAX,
            matrix.height * module_pixel_size <= u32::MAX,
            (matrix.width * module_pixel_size) * (matrix.height * module_pixel_size) <= usize::MAX,
        ensures
            matrix.width == 0 || matrix.height == 0 ==> r == Err::<RgbBuffer, RenderError>(RenderError::EmptyMatrix),
            matrix.width > 0 && matrix.height > 0 && module_pixel_size == 0 ==> r == Err::<RgbBuffer, RenderError>(
                RenderError::ZeroModuleSize,
            ),
            matrix.width > 0 && matrix.height > 0 && module_pixel_size > 0 ==> (r matches Ok(img)
                && module_render_ok(*matrix, module_pixel_size, state_1_rgb, img)),
    {
        render_modules(matrix, module_pixel_size, state_1_rgb)
    }
}

// ---------------------------------------------------------------------------
// Triangular grids
// ---------------------------------------------------------------------------

/// Pixel `(dx, dy)` of a `w × h` bounding box lies in the triangle: an
/// up-triangle has its apex at the top center and its base at the bottom;
/// a down-triangle the reverse. Edges are included. (`dx/w` against
/// `½ ∓ ½·dy/h`, multiplied out.)
pub open spec fn in_triangle(dx: int, dy: int, w: int, h: int, up: bool) -> bool {
    if up {
        w * (h - dy) <= 2 * dx * h && 2 * dx * h <= w * (h + dy)
    } else {
        w * dy <= 2 * dx * h && 2 * dx * h <= w * (2 * h - dy)
    }
}

/// The top-left pixel of the bounding box of cell `(col, row)`: columns
/// are staggered by half a cell width.
pub fn cell_pixel_origin(col: usize, row: usize, cell_w: u32, cell_h: u32) -> (p: (u32, u32))
    requires
        col <= u32::MAX,
        row <= u32::MAX,
        col * cell_w <= u32::MAX,
        row * cell_h <= u32::MAX,
    ensures
        p.0 == col * cell_w / 2,
        p.1 == row * cell_h,
{
    let px_x = (col as u32) * cell_w / 2;
    let px_y = (row as u32) * cell_h;
    (px_x, px_y)
}

/// Whether pixel `(dx, dy)` of a cell's `cell_w × cell_h` bounding box lies
/// in its triangle (up-pointing when `is_up`).
pub fn pixel_in_triangle(dx: u32, dy: u32, cell_w: u32, cell_h: u32, is_up: bool) -> (r: bool)
    requires
        cell_w > 0,
        cell_h > 0,
    ensures
        r == in_triangle(dx as int, dy as int, cell_w as int, cell_h as int, is_up),
{
    let w = cell_w as u128;
    let h = cell_h as u128;
    let d = dy as u128;
    let x = dx as u128;
    proof {
        assert(2 * x * h <= 2 * 0xffff_ffffu128 * 0xffff_ffffu128) by (nonlinear_arith)
            requires
                x <= 0xffff_ffffu128,
                h <= 0xffff_ffffu128,
        ;
        assert(w * (2 * h) <= 0xffff_ffffu128 * (2 * 0xffff_ffffu128)) by (nonlinear_arith)
            requires
                w <= 0xffff_ffffu128,
                h <= 0xffff_ffffu128,
        ;
        assert(w * (h + d) <= 0xffff_ffffu128 * (2 * 0xffff_ffffu128)) by (nonlinear_arith)
            requires
                w <= 0xffff_ffffu128,
                h <= 0xffff_ffffu128,
                d <= 0xffff_ffffu128,
        ;
        assert(w * d <= 0xffff_ffffu128 * 0xffff_ffffu128) by (nonlinear_arith)
            requires
                w <= 0xffff_ffffu128,
                d <= 0xffff_ffffu128,
        ;
        assert(w * h <= 0xffff_ffffu128 * 0xffff_ffffu128) by (nonlinear_arith)
            requires
                w <= 0xffff_ffffu128,
                h <= 0xffff_ffffu128,
        ;
    }
    let x2h = 2 * x * h;
    if is_up {
        proof {
            if d <= h {
                assert(w * (h - d) <= w * h) by (nonlinear_arith)
                    requires
                        d <= h,
                ;
            }
        }
        let lower_ok = if d <= h { w * (h - d) <= x2h } else { true };
        proof {
            if d > h {
                assert(w * ((h as int) - (d as int)) <= 0) by (nonlinear_arith)
                    requires
                        d > h,
                        w >= 0,
                ;
            }
        }
        lower_ok && x2h <= w * (h + d)
    } else {
        proof {
            if d <= 2 * h {
                assert(w * (2 * h - d) <= w * (2 * h)) by (nonlinear_arith)
                    requires
                        d <= 2 * h,
                ;
            }
        }
        let upper_ok = if d <= 2 * h { x2h <= w * (2 * h - d) } else { false };
        proof {
            if d > 2 * h {
                assert(w * (2 * (h as int) - (d as int)) <= 0) by (nonlinear_arith)
                    requires
                        d > 2 * h,
                        w >= 0,
                ;
                assert(w * (2 * (h as int) - (d as int)) < 0) by (nonlinear_arith)
                    requires
                        d > 2 * h,
                        w > 0,
                ;
            }
        }
        w * d <= x2h && upper_ok
    }
}

/// Cell `k` (row-major) of a grid with `cols` columns covers pixel `(x, y)`
/// of an `img_w × img_h` image with cells `h` pixels square.
pub open spec fn covers(k: int, x: int, y: int, cols: int, h: int, img_w: int, img_h: int) -> bool {
    let col = k % cols;
    let row = k / cols;
    let ox = col * h / 2;
    let oy = row * h;
    &&& ox <= x < ox + h
    &&& oy <= y < oy + h
    &&& x < img_w
    &&& y < img_h
    &&& in_triangle(x - ox, y - oy, h, h, spec_is_up(col, row))
}

/// The color of pixel `(x, y)` after painting cells `0 .. n` in order over
/// a white background: the last cell that covers it wins.
pub open spec fn painted(colors: Seq<[u8; 3]>, n: int, x: int, y: int, cols: int, h: int, img_w: int, img_h: int) -> [u8; 3]
    decreases n,
{
    if n <= 0 {
        [255u8, 255u8, 255u8]
    } else if covers(n - 1, x, y, cols, h, img_w, img_h) {
        colors[n - 1]
    } else {
        painted(colors, n - 1, x, y, cols, h, img_w, img_h)
    }
}

/// The width of the image of a grid with `cols` columns of cells `h` wide.
pub open spec fn trigrid_width(cols: int, h: int) -> int {
    cols * h / 2 + h / 2
}

/// A pixel of the image is a pixel of cell `k`'s bounding box, in its
/// rows before `dy`, or in row `dy` before column `dx`.
pub open spec fn box_done(x: int, y: int, ox: int, oy: int, h: int, dy: int, dx: int) -> bool {
    (ox <= x < ox + h && oy <= y < oy + dy) || (y == oy + dy && ox <= x < ox + dx)
}

/// Paint the triangles of a `rows × cols` grid, cell `k` (row-major) in
/// `colors[k]`, over a white background.
pub fn paint_trigrid(rows: usize, cols: usize, cell_h: u32, colors: &Vec<[u8; 3]>) -> (img: RgbBuffer)
    requires
        cols > 0,
        cell_h > 0,
        colors@.len() == rows * cols,
        (cols + 1) * cell_h <= u32::MAX,
        rows * cell_h <= u32::MAX,
        trigrid_width(cols as int, cell_h as int) * (rows * cell_h) <= usize::MAX,
    ensures
        img.width == trigrid_width(cols as int, cell_h as int),
        img.height == rows * cell_h,
        img.wf(),
        forall|x: int, y: int|
            0 <= x < img.width && 0 <= y < img.height ==> #[trigger] img.pixel(x, y) == painted(
                colors@,
                rows * cols,
                x,
                y,
                cols as int,
                cell_h as int,
                img.width as int,
                img.height as int,
            ),
{
    let h = cell_h;
    proof {
        assert(cols * h / 2 + h / 2 <= (cols + 1) * h && cols <= cols * h && rows <= rows * h && cols * h <= (cols + 1) * h) by (nonlinear_arith)
            requires
                cols >= 0,
                rows >= 0,
                h >= 1,
        ;
    }
    let img_w = (cols as u32) * h / 2 + h / 2;
    let img_h = (rows as u32) * h;
    let mut img = RgbBuffer::from_pixel(img_w, img_h, [255u8, 255, 255]);
    proof {
        assert forall|x: int, y: int| 0 <= x < img_w && 0 <= y < img_h implies #[trigger] img.pixel(x, y) == painted(
            colors@,
            0,
            x,
            y,
            cols as int,
            h as int,
            img_w as int,
            img_h as int,
        ) by {
            crate::trigrid::lemma_cell_index(img_h as int, img_w as int, x, y);
            assert((img_h as int) * (img_w as int) == (img_w as int) * (img_h as int)) by (nonlinear_arith);
            assert(img.pixels@[y * img_w + x] == [255u8, 255u8, 255u8]);
        }
    }
    let n = colors.len();
    let mut k: usize = 0;
    while k < n
        invariant
            cols > 0,
            cols <= u32::MAX,
            rows <= u32::MAX,
            h > 0,
            n == rows * cols,
            colors@.len() == n,
            (cols + 1) * h <= u32::MAX,
            rows * h <= u32::MAX,
            img_w == cols * h / 2 + h / 2,
            img_h == rows * h,
            img.width == img_w,
            img.height == img_h,
            img.wf(),
            0 <= k <= n,
            forall|x: int, y: int|
                0 <= x < img_w && 0 <= y < img_h ==> #[trigger] img.pixel(x, y) == painted(
                    colors@,
                    k as int,
                    x,
                    y,
                    cols as int,
                    h as int,
                    img_w as int,
                    img_h as int,
                ),
        decreases n - k,
    {
        let col = k % cols;
        let row = k / cols;
        proof {
            vstd::arithmetic::div_mod::lemma_fundamental_div_mod(k as int, cols as int);
            assert(row < rows) by (nonlinear_arith)
                requires
                    k < rows * cols,
                    row == k / cols,
                    cols > 0,
            {
                vstd::arithmetic::div_mod::lemma_div_by_multiple_is_strongly_ordered(k as int, (rows * cols) as int, rows as int, cols as int);
            }
            assert(col * h <= cols * h && row * h + h <= rows * h && col * h / 2 + h <= (cols + 1) * h && cols * h <= (cols + 1) * h) by (nonlinear_arith)
                requires
                    col < cols,
                    row < rows,
                    h >= 0,
            ;
        }
        let (ox, oy) = cell_pixel_origin(col, row, h, h);
        let up = TriGrid::is_up(col, row);
        let color = colors[k];
        let mut dy: u32 = 0;
        while dy < h
            invariant
                cols > 0,
                h > 0,
                n == rows * cols,
                colors@.len() == n,
                0 <= k < n,
                col == k % cols,
                row == k / cols,
                ox == col * h / 2,
                oy == row * h,
                ox + h <= u32::MAX,
                oy + h <= u32::MAX,
                up == spec_is_up(col as int, row as int),
                color == colors@[k as int],
                img_w == cols * h / 2 + h / 2,
                img_h == rows * h,
                img.width == img_w,
                img.height == img_h,
                img.wf(),
                0 <= dy <= h,
                forall|x: int, y: int|
                    0 <= x < img_w && 0 <= y < img_h ==> #[trigger] img.pixel(x, y) == (if box_done(
                        x,
                        y,
                        ox as int,
                        oy as int,
                        h as int,
                        dy as int,
                        0,
                    ) && covers(k as int, x, y, cols as int, h as int, img_w as int, img_h as int) {
                        color
                    } else {
                        painted(colors@, k as int, x, y, cols as int, h as int, img_w as int, img_h as int)
                    }),
            decreases h - dy,
        {
            let mut dx: u32 = 0;
            while dx < h
                invariant
                    cols > 0,
                    h > 0,
                    n == rows * cols,
                    colors@.len() == n,
                    0 <= k < n,
                    col == k % cols,
                    row == k / cols,
                    ox == col * h / 2,
                    oy == row * h,
                    ox + h <= u32::MAX,
                    oy + h <= u32::MAX,
                    up == spec_is_up(col as int, row as int),
                    color == colors@[k as int],
                    img_w == cols * h / 2 + h / 2,
                    img_h == rows * h,
                    img.width == img_w,
                    img.height == img_h,
                    img.wf(),
                    0 <= dy < h,
                    0 <= dx <= h,
                    forall|x: int, y: int|
                        0 <= x < img_w && 0 <= y < img_h ==> #[trigger] img.pixel(x, y) == (if box_done(
                            x,
                            y,
                            ox as int,
                            oy as int,
                            h as int,
                            dy as int,
                            dx as int,
                        ) && covers(k as int, x, y, cols as int, h as int, img_w as int, img_h as int) {
                            color
                        } else {
                            painted(colors@, k as int, x, y, cols as int, h as int, img_w as int, img_h as int)
                        }),
                decreases h - dx,
            {
                let px = ox + dx;
                let py = oy + dy;
                if px < img_w && py < img_h && pixel_in_triangle(dx, dy, h, h, up) {
                    let ghost before = img;
                    img.put_pixel(px, py, color);
                    proof {
                        assert forall|x: int, y: int|
                            0 <= x < img_w && 0 <= y < img_h && (x != px || y != py) implies #[trigger] img.pixel(x, y)
                            == before.pixel(x, y) by {
                            crate::trigrid::lemma_cell_index(img_h as int, img_w as int, x, y);
                            crate::trigrid::lemma_cell_index(img_h as int, img_w as int, px as int, py as int);
                            crate::modular::lemma_index_row_col(y, x, img_w as int);
                            crate::modular::lemma_index_row_col(py as int, px as int, img_w as int);
                        }
                        crate::trigrid::lemma_cell_index(img_h as int, img_w as int, px as int, py as int);
                    }
                }
                dx = dx + 1;
            }
            dy = dy + 1;
        }
        proof {
            assert forall|x: int, y: int| 0 <= x < img_w && 0 <= y < img_h implies #[trigger] img.pixel(x, y)
                == painted(colors@, k + 1, x, y, cols as int, h as int, img_w as int, img_h as int) by {
                if covers(k as int, x, y, cols as int, h as int, img_w as int, img_h as int) {
                    assert(box_done(x, y, ox as int, oy as int, h as int, h as int, 0));
                }
            }
        }
        k = k + 1;
    }
    img
}

/// The colors of the cells of `grid` (row-major).
pub open spec fn trit_colors(grid: TriGrid, accent: [u8; 3]) -> Seq<[u8; 3]> {
    Seq::new(grid.data@.len(), |k: int| state_color(grid.data@[k], accent))
}

/// What a halftone cell is painted with: a fixed color, the source pixel
/// frosted to 90 % lightness (`Glass`), or the source pixel's hue and
/// saturation at the lightness of a state (`Relight`).
#[derive(Debug, Clone, Copy, PartialEq, Eq)]
pub enum CellPaint {
    Flat([u8; 3]),
    Glass,
    Relight(u8),
}

/// The font mask's state for `(col, row)`, if it has one.
pub open spec fn font_state(mask: Seq<Vec<Option<u8>>>, col: int, row: int) -> Option<u8> {
    if 0 <= row < mask.len() && 0 <= col < mask[row]@.len() {
        mask[row]@[col]
    } else {
        None
    }
}

/// Strict black and white for anchor cells: 0 black, 1 and erasures gray,
/// 2 white.
pub open spec fn anchor_color(trit: u8) -> [u8; 3] {
    if trit == 0 {
        [0u8, 0u8, 0u8]
    } else if trit == 2 {
        [255u8, 255u8, 255u8]
    } else {
        [128u8, 128u8, 128u8]
    }
}

/// The paint of cell `(col, row)`: a font stroke is black, a font halo is
/// frosted glass, other font states gray; anchor cells are strict black and
/// white; every other cell keeps the source hue at its state's lightness.
pub open spec fn cell_paint(grid: TriGrid, mask: Seq<Vec<Option<u8>>>, col: int, row: int) -> CellPaint {
    match font_state(mask, col, row) {
        Some(fs) => if fs == 0 {
            CellPaint::Flat([0u8, 0u8, 0u8])
        } else if fs == 2 {
            CellPaint::Glass
        } else {
            CellPaint::Flat([128u8, 128u8, 128u8])
        },
        None => if crate::tri_anchor::in_anchor_region(col, row, grid.rows as int, grid.cols as int) {
            CellPaint::Flat(anchor_color(grid.cell(col, row)))
        } else {
            CellPaint::Relight(grid.cell(col, row))
        },
    }
}

/// Renders triangular grids.
pub struct TriAnchorRenderer;

impl TriAnchorRenderer {
    /// Render a grid as flat-color triangles over white: state 0 black,
    /// state 1 `state_1_rgb`, state 2 white, other values gray; cells are
    /// `cell_h` pixels tall and as wide, painted in row-major order.
    pub fn render_trigrid(grid: &TriGrid, cell_h: u32, state_1_rgb: [u8; 3]) -> (r: Result<RgbBuffer, RenderError>)
        requires
            grid.wf(),
            (grid.cols + 1) * cell_h <= u32::MAX,
            grid.rows * cell_h <= u32::MAX,
            trigrid_width(grid.cols as int, cell_h as int) * (grid.rows * cell_h) <= usize::MAX,
        ensures
            grid.rows == 0 || grid.cols == 0 ==> r == Err::<RgbBuffer, RenderError>(RenderError::EmptyMatrix),
            grid.rows > 0 && grid.cols > 0 && cell_h == 0 ==> r == Err::<RgbBuffer, RenderError>(
                RenderError::ZeroModuleSize,
            ),
            grid.rows > 0 && grid.cols > 0 && cell_h > 0 ==> (r matches Ok(img) && {
                &&& img.width == trigrid_width(grid.cols as int, cell_h as int)
                &&& img.height == grid.rows * cell_h
                &&& img.wf()
                &&& forall|x: int, y: int|
                    0 <= x < img.width && 0 <= y < img.height ==> #[trigger] img.pixel(x, y) == painted(
                        trit_colors(*grid, state_1_rgb),
                        grid.rows * grid.cols,
                        x,
                        y,
                        grid.cols as int,
                        cell_h as int,
                        img.width as int,
                        img.height as int,
                    )
            }),
    {
        if grid.rows == 0 || grid.cols == 0 {
            return Err(RenderError::EmptyMatrix);
        }
        if cell_h == 0 {
            return Err(RenderError::ZeroModuleSize);
        }
        let mut colors: Vec<[u8; 3]> = Vec::new();
        let mut k: usize = 0;
        while k < grid.data.len()
            invariant
                0 <= k <= grid.data@.len(),
                colors@.len() == k,
                forall|j: int| 0 <= j < k ==> #[trigger] colors@[j] == state_color(grid.data@[j], state_1_rgb),
            decreases grid.data@.len() - k,
        {
            colors.push(color_of(grid.data[k], state_1_rgb));
            k = k + 1;
        }
        proof {
            assert(colors@ =~= trit_colors(*grid, state_1_rgb));
        }
        Ok(paint_trigrid(grid.rows, grid.cols, cell_h, &colors))
    }

    /// The paint of every cell of a halftone rendering (row-major); the
    /// colors that need the source image are chosen by the caller, who then
    /// paints them with `paint_trigrid`.
    pub fn halftone_plan(grid: &TriGrid, cell_h: u32, font_mask: &[Vec<Option<u8>>]) -> (r: Result<
        Vec<CellPaint>,
        RenderError,
    >)
        requires
            grid.wf(),
            grid.rows == 0 || grid.cols == 0 || cell_h == 0 || (grid.rows >= 5 && grid.cols >= 8),
        ensures
            grid.rows == 0 || grid.cols == 0 ==> r == Err::<Vec<CellPaint>, RenderError>(RenderError::EmptyMatrix),
            grid.rows > 0 && grid.cols > 0 && cell_h == 0 ==> r == Err::<Vec<CellPaint>, RenderError>(
                RenderError::ZeroModuleSize,
            ),
            grid.rows >= 5 && grid.cols >= 8 && cell_h > 0 ==> (r matches Ok(plan) && {
                &&& plan@.len() == grid.rows * grid.cols
                &&& forall|k: int|
                    0 <= k < plan@.len() ==> #[trigger] plan@[k] == cell_paint(
                        *grid,
                        font_mask@,
                        k % grid.cols as int,
                        k / grid.cols as int,
                    )
            }),
    {
        if grid.rows == 0 || grid.cols == 0 {
            return Err(RenderError::EmptyMatrix);
        }
        if cell_h == 0 {
            return Err(RenderError::ZeroModuleSize);
        }
        let rows = grid.rows;
        let cols = grid.cols;
        let mut plan: Vec<CellPaint> = Vec::new();
        let mut k: usize = 0;
        while k < grid.data.len()
            invariant
                grid.wf(),
                rows == grid.rows,
                cols == grid.cols,
                rows >= 5,
                cols >= 8,
                0 <= k <= grid.data@.len(),
                plan@.len() == k,
                forall|j: int|
                    0 <= j < k ==> #[trigger] plan@[j] == cell_paint(*grid, font_mask@, j % cols as int, j / cols as int),
            decreases grid.data@.len() - k,
        {
            let col = k % cols;
            let row = k / cols;
            proof {
                vstd::arithmetic::div_mod::lemma_fundamental_div_mod(k as int, cols as int);
                assert(row < rows) by (nonlinear_arith)
                    requires
                        k < rows * cols,
                        row == k / cols,
                        cols > 0,
                {
                    vstd::arithmetic::div_mod::lemma_div_by_multiple_is_strongly_ordered(k as int, (rows * cols) as int, rows as int, cols as int);
                }
                assert(row * cols + col == k);
            }
            let trit = grid.data[k];
            let fs: Option<u8> = if row < font_mask.len() && col < font_mask[row].len() {
                font_mask[row][col]
            } else {
                None
            };
            let paint = match fs {
                Some(f) => if f == 0 {
                    CellPaint::Flat([0u8, 0, 0])
                } else if f == 2 {
                    CellPaint::Glass
                } else {
                    CellPaint::Flat([128u8, 128, 128])
                },
                None => if crate::tri_anchor::is_in_tri_anchor_region(col, row, rows, cols) {
                    let c = if trit == 0 {
                        [0u8, 0, 0]
                    } else if trit == 2 {
                        [255u8, 255, 255]
                    } else {
                        [128u8, 128, 128]
                    };
                    CellPaint::Flat(c)
                } else {
                    CellPaint::Relight(trit)
                },
            };
            plan.push(paint);
            k = k + 1;
        }
        Ok(plan)
    }
}

// ---------------------------------------------------------------------------
// Error diffusion neighbors
// ---------------------------------------------------------------------------

/// A neighbor cell with its diffusion weight, in eighths.
#[derive(Debug, Clone, Copy, PartialEq, Eq)]
pub struct TriNeighbor {
    pub col: usize,
    pub row: usize,
    /// The weight times 8 (3 for 3/8, 2 for 2/8).
    pub weight_eighths: u8,
}

/// The forward neighbors of `(col, row)` in scanline order: the right
/// neighbor (3/8), the cell below (3/8), and the diagonal below (2/8) —
/// below-right for an up-triangle, below-left for a down-triangle — each
/// when it lies inside the grid.
pub open spec fn spec_forward_neighbors(col: int, row: int, rows: int, cols: int) -> Seq<TriNeighbor> {
    let right: Seq<TriNeighbor> = if col + 1 < cols {
        seq![TriNeighbor { col: (col + 1) as usize, row: row as usize, weight_eighths: 3 }]
    } else {
        Seq::empty()
    };
    let below: Seq<TriNeighbor> = if row + 1 < rows {
        seq![TriNeighbor { col: col as usize, row: (row + 1) as usize, weight_eighths: 3 }]
    } else {
        Seq::empty()
    };
    let diag: Seq<TriNeighbor> = if spec_is_up(col, row) {
        if row + 1 < rows && col + 1 < cols {
            seq![TriNeighbor { col: (col + 1) as usize, row: (row + 1) as usize, weight_eighths: 2 }]
        } else {
            Seq::empty()
        }
    } else {
        if row + 1 < rows && col > 0 {
            seq![TriNeighbor { col: (col - 1) as usize, row: (row + 1) as usize, weight_eighths: 2 }]
        } else {
            Seq::empty()
        }
    };
    right + below + diag
}

/// The forward-diffusion neighbors of the triangle at `(col, row)`.
pub fn tri_forward_neighbors(col: usize, row: usize, rows: usize, cols: usize) -> (r: Vec<TriNeighbor>)
    requires
        col < usize::MAX,
        row < usize::MAX,
    ensures
        r@ == spec_forward_neighbors(col as int, row as int, rows as int, cols as int),
{
    let mut neighbors: Vec<TriNeighbor> = Vec::new();
    let is_up = TriGrid::is_up(col, row);
    if col + 1 < cols {
        neighbors.push(TriNeighbor { col: col + 1, row, weight_eighths: 3 });
    }
    if row + 1 < rows {
        neighbors.push(TriNeighbor { col, row: row + 1, weight_eighths: 3 });
    }
    if is_up {
        if row + 1 < rows && col + 1 < cols {
            neighbors.push(TriNeighbor { col: col + 1, row: row + 1, weight_eighths: 2 });
        }
    } else {
        if row + 1 < rows && col > 0 {
            neighbors.push(TriNeighbor { col: col - 1, row: row + 1, weight_eighths: 2 });
        }
    }
    proof {
        assert(neighbors@ =~= spec_forward_neighbors(col as int, row as int, rows as int, cols as int));
    }
    neighbors
}

/// The total weight of a neighbor list, in eighths.
pub open spec fn weight_total(ns: Seq<TriNeighbor>) -> int
    decreases ns.len(),
{
    if ns.len() == 0 {
        0
    } else {
        weight_total(ns.drop_last()) + ns.last().weight_eighths
    }
}

/// Error diffusion only moves error forward and never amplifies it: every
/// neighbor of a cell lies in the grid and after the cell in scanline
/// order, and the weights sum to at most one (eight eighths).
pub proof fn law_forward_neighbors(col: int, row: int, rows: int, cols: int)
    requires
        0 <= col < cols <= usize::MAX,
        0 <= row < rows <= usize::MAX,
    ensures
        spec_forward_neighbors(col, row, rows, cols).len() <= 3,
        weight_total(spec_forward_neighbors(col, row, rows, cols)) <= 8,
        forall|k: int|
            0 <= k < spec_forward_neighbors(col, row, rows, cols).len() ==> {
                let nb = #[trigger] spec_forward_neighbors(col, row, rows, cols)[k];
                &&& nb.col < cols
                &&& nb.row < rows
                &&& (nb.row > row || (nb.row == row && nb.col > col))
            },
{
    let ns = spec_forward_neighbors(col, row, rows, cols);
    reveal_with_fuel(weight_total, 4);
    assert forall|k: int| 0 <= k < ns.len() implies {
        let nb = #[trigger] ns[k];
        &&& nb.col < cols
        &&& nb.row < rows
        &&& (nb.row > row || (nb.row == row && nb.col > col))
    } by {
        let right: Seq<TriNeighbor> = if col + 1 < cols {
            seq![TriNeighbor { col: (col + 1) as usize, row: row as usize, weight_eighths: 3 }]
        } else {
            Seq::empty()
        };
        let below: Seq<TriNeighbor> = if row + 1 < rows {
            seq![TriNeighbor { col: col as usize, row: (row + 1) as usize, weight_eighths: 3 }]
        } else {
            Seq::empty()
        };
        if k < right.len() {
            assert(ns[k] == right[k]);
        } else if k < right.len() + below.len() {
            assert(ns[k] == below[k - right.len()]);
        }
    }
    if ns.len() == 3 {
        assert(ns.drop_last().drop_last().drop_last() =~= Seq::<TriNeighbor>::empty());
    } else if ns.len() == 2 {
        assert(ns.drop_last().drop_last() =~= Seq::<TriNeighbor>::empty());
    } else if ns.len() == 1 {
        assert(ns.drop_last() =~= Seq::<TriNeighbor>::empty());
    }
}

/// The forward neighbors of a triangle are exactly: its right neighbor with
/// weight 3/8 when there is one, the cell below with weight 3/8 when there
/// is one, and with weight 2/8 the cell diagonally below on the side the
/// triangle's base faces — below-right when `col + row` is even (an
/// up-triangle), below-left when it is odd — when that cell lies in the
/// grid.
pub proof fn law_neighbors_follow_orientation(col: int, row: int, rows: int, cols: int)
    requires
        0 <= col < cols <= usize::MAX,
        0 <= row < rows <= usize::MAX,
    ensures
        ({
            let ns = spec_forward_neighbors(col, row, rows, cols);
            let dc = if (col + row) % 2 == 0 { col + 1 } else { col - 1 };
            &&& forall|k: int|
                0 <= k < ns.len() ==> {
                    let nb = #[trigger] ns[k];
                    ||| nb.col == col + 1 && nb.row == row && nb.weight_eighths == 3
                    ||| nb.col == col && nb.row == row + 1 && nb.weight_eighths == 3
                    ||| nb.col == dc && nb.row == row + 1 && nb.weight_eighths == 2
                }
            &&& (col + 1 < cols <==> exists|k: int|
                0 <= k < ns.len() && (#[trigger] ns[k]).col == col + 1 && ns[k].row == row && ns[k].weight_eighths == 3)
            &&& (row + 1 < rows <==> exists|k: int|
                0 <= k < ns.len() && (#[trigger] ns[k]).col == col && ns[k].row == row + 1 && ns[k].weight_eighths == 3)
            &&& (row + 1 < rows && 0 <= dc < cols <==> exists|k: int|
                0 <= k < ns.len() && (#[trigger] ns[k]).col == dc && ns[k].row == row + 1 && ns[k].weight_eighths == 2)
        }),
{
    let ns = spec_forward_neighbors(col, row, rows, cols);
    let dc = if (col + row) % 2 == 0 { col + 1 } else { col - 1 };
    let right: Seq<TriNeighbor> = if col + 1 < cols {
        seq![TriNeighbor { col: (col + 1) as usize, row: row as usize, weight_eighths: 3 }]
    } else {
        Seq::empty()
    };
    let below: Seq<TriNeighbor> = if row + 1 < rows {
        seq![TriNeighbor { col: col as usize, row: (row + 1) as usize, weight_eighths: 3 }]
    } else {
        Seq::empty()
    };
    let diag: Seq<TriNeighbor> = if row + 1 < rows && 0 <= dc < cols {
        seq![TriNeighbor { col: dc as usize, row: (row + 1) as usize, weight_eighths: 2 }]
    } else {
        Seq::empty()
    };
    assert(ns =~= right + below + diag);
    assert forall|k: int| 0 <= k < ns.len() implies {
        let nb = #[trigger] ns[k];
        ||| nb.col == col + 1 && nb.row == row && nb.weight_eighths == 3
        ||| nb.col == col && nb.row == row + 1 && nb.weight_eighths == 3
        ||| nb.col == dc && nb.row == row + 1 && nb.weight_eighths == 2
    } by {
        if k < right.len() {
            assert(ns[k] == right[k]);
        } else if k < right.len() + below.len() {
            assert(ns[k] == below[k - right.len()]);
        } else {
            assert(ns[k] == diag[k - right.len() - below.len()]);
        }
    }
    if col + 1 < cols {
        assert(ns[0] == right[0]);
    }
    if row + 1 < rows {
        assert(ns[right.len() as int] == below[0]);
    }
    if row + 1 < rows && 0 <= dc < cols {
        assert(ns[(right.len() + below.len()) as int] == diag[0]);
    }
}

/// Whether the font mask gives cell `(col, row)` a state.
pub open spec fn in_font(mask: Seq<Vec<Option<u8>>>, col: int, row: int) -> bool {
    0 <= row < mask.len() && 0 <= col < mask[row]@.len() && mask[row]@[col] is Some
}

/// The halftone paint of a cell outside the font and the anchor blocks
/// keeps the picture's hue and saturation at the lightness of the cell's
/// own state, whatever that state is; font strokes are black, font halos
/// frosted glass, and anchor cells strict black, gray and white.
pub proof fn law_halftone_paint(grid: TriGrid, mask: Seq<Vec<Option<u8>>>, col: int, row: int)
    ensures
        !in_font(mask, col, row) && !crate::tri_anchor::in_anchor_region(
            col,
            row,
            grid.rows as int,
            grid.cols as int,
        ) ==> cell_paint(grid, mask, col, row) == CellPaint::Relight(grid.cell(col, row)),
        in_font(mask, col, row) && mask[row]@[col] == Some(0u8) ==> cell_paint(grid, mask, col, row) == CellPaint::Flat(
            [0u8, 0u8, 0u8],
        ),
        in_font(mask, col, row) && mask[row]@[col] == Some(2u8) ==> cell_paint(grid, mask, col, row) == CellPaint::Glass,
        !in_font(mask, col, row) && crate::tri_anchor::in_anchor_region(col, row, grid.rows as int, grid.cols as int)
            ==> cell_paint(grid, mask, col, row) == CellPaint::Flat(
            if grid.cell(col, row) == 0 {
                [0u8, 0u8, 0u8]
            } else if grid.cell(col, row) == 2 {
                [255u8, 255u8, 255u8]
            } else {
                [128u8, 128u8, 128u8]
            },
        ),
{
}

} // verus!
