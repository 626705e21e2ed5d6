//! Plain pixel grids: colors, color images and boolean masks.
use vstd::prelude::*;

verus! {

/// Largest coordinate (and extent) a grid may have: every coordinate fits an `i32`.
pub const MAX_EXTENT: u32 = 0x7fff_ffff;

/// An RGBA color with 8 bits per channel.
#[derive(Clone, Copy, Debug, PartialEq, Eq, Structural)]
pub struct Color {
    pub r: u8,
    pub g: u8,
    pub b: u8,
    pub a: u8,
}

impl Color {
    pub fn new(r: u8, g: u8, b: u8, a: u8) -> (c: Color)
        ensures
            c == (Color { r, g, b, a }),
    {
        Color { r, g, b, a }
    }

    pub open spec fn spec_black() -> Color {
        Color { r: 0, g: 0, b: 0, a: 255 }
    }

    /// Opaque black, the color of cell borders.
    pub fn black() -> (c: Color)
        ensures
            c == Color::spec_black(),
    {
        Color { r: 0, g: 0, b: 0, a: 255 }
    }
}

/// Row-major index of `(x, y)` in a grid `width` wide.
pub open spec fn grid_index(width: int, x: int, y: int) -> int {
    y * width + x
}

/// Cells `(x, y)` with `x < width` and `y < height` have distinct indices below `width * height`.
pub proof fn lemma_grid_index(width: int, height: int, x: int, y: int)
    requires
        0 <= x < width,
        0 <= y < height,
    ensures
        0 <= grid_index(width, x, y) < width * height,
        grid_index(width, x, y) + 1 == grid_index(width, x + 1, y),
        grid_index(width, width, y) == grid_index(width, 0, y + 1),
{
    assert(0 <= y * width + x < width * height) by (nonlinear_arith)
        requires
            0 <= x < width,
            0 <= y < height,
    ;
    assert((y + 1) * width == y * width + width) by (nonlinear_arith);
}

/// Cells of the rows before row `y` come before that row's cells.
pub proof fn lemma_grid_index_earlier_row(width: int, x: int, row: int, y: int)
    requires
        0 <= x < width,
        0 <= row < y,
    ensures
        0 <= grid_index(width, x, row) < y * width,
{
    assert(0 <= row * width + x < y * width) by (nonlinear_arith)
        requires
            0 <= x < width,
            0 <= row < y,
    ;
}

/// The product of two extents within `MAX_EXTENT` fits a `u64`.
pub proof fn lemma_extent_product(width: u32, height: u32)
    requires
        width <= MAX_EXTENT,
        height <= MAX_EXTENT,
    ensures
        width * height <= u64::MAX,
{
    assert(width * height <= MAX_EXTENT * MAX_EXTENT) by (nonlinear_arith)
        requires
            width <= MAX_EXTENT,
            height <= MAX_EXTENT,
    ;
}

/// A color image of `width * height` pixels, stored row by row.
#[derive(Clone, Debug)]
pub struct Image {
    pub width: u32,
    pub height: u32,
    pub pixels: Vec<Color>,
}

impl Image {
    /// Nonzero extents that fit `MAX_EXTENT`, and one pixel per cell.
    pub open spec fn wf(&self) -> bool {
        &&& 0 < self.width <= MAX_EXTENT
        &&& 0 < self.height <= MAX_EXTENT
        &&& self.pixels@.len() == self.width * self.height
    }

    pub open spec fn in_bounds(&self, x: int, y: int) -> bool {
        0 <= x < self.width && 0 <= y < self.height
    }

    pub open spec fn pixel(&self, x: int, y: int) -> Color {
        self.pixels@[grid_index(self.width as int, x, y)]
    }

    /// Builds an image from rows of pixels, or `None` when the extents are
    /// zero, too large, or do not match the number of pixels.
    pub fn new(width: u32, height: u32, pixels: Vec<Color>) -> (r: Option<Image>)
        ensures
            r is Some <==> (0 < width <= MAX_EXTENT && 0 < height <= MAX_EXTENT
                && pixels@.len() == width * height),
            r matches Some(img) ==> img.wf() && img.width == width && img.height == height
                && img.pixels@ == pixels@,
    {
        if width == 0 || height == 0 || width > MAX_EXTENT || height > MAX_EXTENT {
            return None;
        }
        proof {
            lemma_extent_product(width, height);
        }
        if pixels.len() as u64 != width as u64 * height as u64 {
            return None;
        }
        Some(Image { width, height, pixels })
    }

    /// The pixel at `(x, y)`.
    pub fn get_pixel(&self, x: u32, y: u32) -> (c: Color)
        requires
            self.wf(),
            self.in_bounds(x as int, y as int),
        ensures
            c == self.pixel(x as int, y as int),
    {
        proof {
            lemma_grid_index(self.width as int, self.height as int, x as int, y as int);
            assert((y as usize) * (self.width as usize) + (x as usize) < self.pixels.len());
        }
        let row_start = y as usize * self.width as usize;
        self.pixels[row_start + x as usize]
    }
}

/// A boolean grid of `width * height` cells, stored row by row.
#[derive(Clone, Debug)]
pub struct Mask {
    pub width: u32,
    pub height: u32,
    pub cells: Vec<bool>,
}

impl Mask {
    pub open spec fn wf(&self) -> bool {
        &&& self.width <= MAX_EXTENT
        &&& self.height <= MAX_EXTENT
        &&& self.cells@.len() == self.width * self.height
    }

    pub open spec fn is_set(&self, x: int, y: int) -> bool {
        self.cells@[grid_index(self.width as int, x, y)]
    }

    pub open spec fn in_bounds(&self, x: int, y: int) -> bool {
        0 <= x < self.width && 0 <= y < self.height
    }

    /// Whether the cell at `(x, y)` is set.
    pub fn get(&self, x: u32, y: u32) -> (b: bool)
        requires
            self.wf(),
            self.in_bounds(x as int, y as int),
        ensures
            b == self.is_set(x as int, y as int),
    {
        proof {
            lemma_grid_index(self.width as int, self.height as int, x as int, y as int);
            assert((y as usize) * (self.width as usize) + (x as usize) < self.cells.len());
        }
        let row_start = y as usize * self.width as usize;
        self.cells[row_start + x as usize]
    }

    /// Builds a mask from rows of cells, or `None` when the extents are too
    /// large or do not match the number of cells.
    pub fn new(width: u32, height: u32, cells: Vec<bool>) -> (r: Option<Mask>)
        ensures
            r is Some <==> (width <= MAX_EXTENT && height <= MAX_EXTENT
                && cells@.len() == width * height),
            r matches Some(m) ==> m.wf() && m.width == width && m.height == height
                && m.cells@ == cells@,
    {
        if width > MAX_EXTENT || height > MAX_EXTENT {
            return None;
        }
        proof {
            lemma_extent_product(width, height);
        }
        if cells.len() as u64 != width as u64 * height as u64 {
            return None;
        }
        Some(Mask { width, height, cells })
    }
}

} // verus!
