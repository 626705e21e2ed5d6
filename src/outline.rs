//! Cell borders: pixels whose 3x3 neighbourhood holds more than one color.
use crate::raster::{grid_index, lemma_grid_index, lemma_grid_index_earlier_row, Color, Image};
use vstd::prelude::*;

verus! {

/// Some pixel of the 3x3 neighbourhood of `(x, y)` that lies inside the image
/// has another color than `(x, y)`.
pub open spec fn differs_nearby(img: Image, x: int, y: int) -> bool {
    exists|nx: int, ny: int|
        x - 1 <= nx <= x + 1 && y - 1 <= ny <= y + 1 && img.in_bounds(nx, ny) && #[trigger] img.pixel(
            nx,
            ny,
        ) != img.pixel(x, y)
}

/// The color of `(x, y)` once borders are drawn: black on a border, else unchanged.
pub open spec fn outlined_pixel(img: Image, x: int, y: int) -> Color {
    if differs_nearby(img, x, y) {
        Color::spec_black()
    } else {
        img.pixel(x, y)
    }
}

/// For an image split by the vertical line before column `k` into two regions
/// of two colors, the two columns beside the line become border pixels and
/// every pixel farther from it keeps its color.
pub proof fn lemma_outline_two_regions(img: Image, k: int, left: Color, right: Color, x: int, y: int)
    requires
        img.wf(),
        left != right,
        0 < k < img.width,
        forall|px: int, py: int|
            img.in_bounds(px, py) ==> #[trigger] img.pixel(px, py) == if px < k {
                left
            } else {
                right
            },
        img.in_bounds(x, y),
    ensures
        x == k - 1 || x == k ==> outlined_pixel(img, x, y) == Color::spec_black(),
        x < k - 1 || x > k ==> outlined_pixel(img, x, y) == img.pixel(x, y),
{
    if x == k - 1 {
        assert(img.pixel(k, y) != img.pixel(x, y));
    } else if x == k {
        assert(img.pixel(k - 1, y) != img.pixel(x, y));
    } else {
        assert forall|nx: int, ny: int|
            x - 1 <= nx <= x + 1 && y - 1 <= ny <= y + 1 && img.in_bounds(nx, ny) implies #[trigger] img.pixel(
            nx,
            ny,
        ) == img.pixel(x, y) by {}
    }
}

/// For an image split by the horizontal line before row `k` into two regions
/// of two colors, the two rows beside the line become border pixels and every
/// pixel farther from it keeps its color.
pub proof fn lemma_outline_two_regions_horizontal(img: Image, k: int, top: Color, bottom: Color, x: int, y: int)
    requires
        img.wf(),
        top != bottom,
        0 < k < img.height,
        forall|px: int, py: int|
            img.in_bounds(px, py) ==> #[trigger] img.pixel(px, py) == if py < k {
                top
            } else {
                bottom
            },
        img.in_bounds(x, y),
    ensures
        y == k - 1 || y == k ==> outlined_pixel(img, x, y) == Color::spec_black(),
        y < k - 1 || y > k ==> outlined_pixel(img, x, y) == img.pixel(x, y),
{
    if y == k - 1 {
        assert(img.pixel(x, k) != img.pixel(x, y));
    } else if y == k {
        assert(img.pixel(x, k - 1) != img.pixel(x, y));
    } else {
        assert forall|nx: int, ny: int|
            x - 1 <= nx <= x + 1 && y - 1 <= ny <= y + 1 && img.in_bounds(nx, ny) implies #[trigger] img.pixel(
            nx,
            ny,
        ) == img.pixel(x, y) by {}
    }
}

/// Whether `(x, y)` lies on a cell border; only neighbours inside the image are read.
pub fn is_border(img: &Image, x: u32, y: u32) -> (b: bool)
    requires
        img.wf(),
        img.in_bounds(x as int, y as int),
    ensures
        b == differs_nearby(*img, x as int, y as int),
{
    let c = img.get_pixel(x, y);
    let x0: u32 = if x > 0 { x - 1 } else { x };
    let x1: u32 = if x + 1 < img.width { x + 1 } else { x };
    let y0: u32 = if y > 0 { y - 1 } else { y };
    let y1: u32 = if y + 1 < img.height { y + 1 } else { y };
    let mut ny: u32 = y0;
    while ny <= y1
        invariant
            img.wf(),
            img.in_bounds(x as int, y as int),
            c == img.pixel(x as int, y as int),
            x0 <= x <= x1 < img.width,
            y0 <= ny <= y1 + 1,
            y1 < img.height,
            x0 == x || x0 == x - 1,
            x1 == x || x1 == x + 1,
            y0 == y || y0 == y - 1,
            y1 == y || y1 == y + 1,
            x0 == x ==> x == 0,
            x1 == x ==> x + 1 == img.width,
            y0 == y ==> y == 0,
            y1 == y ==> y + 1 == img.height,
            forall|px: int, py: int|
                x0 <= px <= x1 && y0 <= py < ny ==> #[trigger] img.pixel(px, py) == c,
        decreases y1 + 1 - ny,
    {
        let mut nx: u32 = x0;
        while nx <= x1
            invariant
                img.wf(),
                c == img.pixel(x as int, y as int),
                x0 <= x <= x1,
                x0 == x || x0 == x - 1,
                x1 == x || x1 == x + 1,
                y0 == y || y0 == y - 1,
                y1 == y || y1 == y + 1,
                x0 == x ==> x == 0,
                x1 == x ==> x + 1 == img.width,
                y0 == y ==> y == 0,
                y1 == y ==> y + 1 == img.height,
                x0 <= nx <= x1 + 1,
                x1 < img.width,
                y0 <= ny <= y1,
                y1 < img.height,
                forall|px: int, py: int|
                    x0 <= px <= x1 && y0 <= py < ny ==> #[trigger] img.pixel(px, py) == c,
                forall|px: int| x0 <= px < nx ==> #[trigger] img.pixel(px, ny as int) == c,
            decreases x1 + 1 - nx,
        {
            if img.get_pixel(nx, ny) != c {
                assert(img.in_bounds(nx as int, ny as int));
                return true;
            }
            nx = nx + 1;
        }
        ny = ny + 1;
    }
    proof {
        assert forall|px: int, py: int|
            x - 1 <= px <= x + 1 && y - 1 <= py <= y + 1 && img.in_bounds(px, py) implies #[trigger] img.pixel(
            px,
            py,
        ) == c by {
            assert(x0 <= px <= x1 && y0 <= py <= y1);
        }
    }
    false
}

/// Paints every border pixel of `img` opaque black and keeps the others.
pub fn draw_outline(img: &Image) -> (r: Image)
    requires
        img.wf(),
    ensures
        r.wf(),
        r.width == img.width,
        r.height == img.height,
        forall|x: int, y: int|
            img.in_bounds(x, y) ==> #[trigger] r.pixel(x, y) == outlined_pixel(*img, x, y),
{
    let w = img.width;
    let h = img.height;
    let mut pixels: Vec<Color> = Vec::new();
    let mut y: u32 = 0;
    while y < h
        invariant
            img.wf(),
            w == img.width,
            h == img.height,
            y <= h,
            pixels@.len() == y * w,
            forall|px: int, py: int|
                0 <= px < w && 0 <= py < y ==> pixels@[grid_index(w as int, px, py)]
                    == #[trigger] outlined_pixel(*img, px, py),
        decreases h - y,
    {
        let mut x: u32 = 0;
        while x < w
            invariant
                img.wf(),
                w == img.width,
                h == img.height,
                y < h,
                x <= w,
                pixels@.len() == y * w + x,
                forall|px: int, py: int|
                    0 <= px < w && 0 <= py < y ==> pixels@[grid_index(w as int, px, py)]
                        == #[trigger] outlined_pixel(*img, px, py),
                forall|px: int|
                    0 <= px < x ==> pixels@[grid_index(w as int, px, y as int)]
                        == #[trigger] outlined_pixel(*img, px, y as int),
            decreases w - x,
        {
            let c = if is_border(img, x, y) {
                Color::black()
            } else {
                img.get_pixel(x, y)
            };
            let ghost before = pixels@;
            pixels.push(c);
            proof {
                lemma_grid_index(w as int, h as int, x as int, y as int);
                assert forall|px: int, py: int|
                    0 <= px < w && 0 <= py < y implies pixels@[grid_index(w as int, px, py)]
                    == #[trigger] outlined_pixel(*img, px, py) by {
                    lemma_grid_index_earlier_row(w as int, px, py, y as int);
                    assert(pixels@[grid_index(w as int, px, py)] == before[grid_index(w as int, px, py)]);
                }
                assert forall|px: int|
                    0 <= px < x + 1 implies pixels@[grid_index(w as int, px, y as int)]
                    == #[trigger] outlined_pixel(*img, px, y as int) by {
                    if px < x {
                        lemma_grid_index(w as int, h as int, px, y as int);
                        assert(pixels@[grid_index(w as int, px, y as int)] == before[grid_index(w as int, px, y as int)]);
                    }
                }
            }
            x = x + 1;
        }
        proof {
            assert((y + 1) * w == y * w + w) by (nonlinear_arith);
        }
        y = y + 1;
    }
    proof {
        assert(h * w == w * h) by (nonlinear_arith);
    }
    Image { width: w, height: h, pixels }
}

} // verus!
