//! From the pixels of a picture to the grid of sampled colors.

use vstd::prelude::*;
use vstd::arithmetic::div_mod::lemma_fundamental_div_mod_converse;
use image::imageops::FilterType;
use image::{DynamicImage, RgbImage};
use crate::color::Rgb;
use crate::error::ErrorKind;
use crate::grid::{cell_positions, covers_grid, GridCell};

verus! {

/// The number of bytes of a picture of `width` by `height` pixels: three
/// per pixel.
pub open spec fn rgb_len(width: u32, height: u32) -> int {
    3 * width * height
}

/// The pixel in column `x` of row `y` of a picture stored row by row, top
/// row first, three bytes per pixel.
pub open spec fn pixel_at(pixels: Seq<u8>, width: int, x: int, y: int) -> Rgb {
    let at = 3 * (y * width + x);
    Rgb { r: pixels[at], g: pixels[at + 1], b: pixels[at + 2] }
}

/// The cell at index `i` of the grid read from a picture of `width` by
/// `height` pixels. Cell rows count from the bottom of the picture: row
/// `y` of the grid shows row `height - 1 - y` of the picture.
pub open spec fn grid_cell(pixels: Seq<u8>, width: int, height: int, i: int) -> GridCell {
    let x = i % width;
    let y = i / width;
    GridCell { x: x as u64, y: y as u64, source: pixel_at(pixels, width, x, height - 1 - y) }
}

/// The grid read from a picture that has one pixel per cell, row by row.
pub open spec fn grid_of(pixels: Seq<u8>, width: u32, height: u32) -> Seq<GridCell> {
    Seq::new((width * height) as nat, |i: int| grid_cell(pixels, width as int, height as int, i))
}

/// The cell for position `(x, y)` stands at index `y * width + x` and shows
/// the pixel in column `x` of the picture's row `height - 1 - y`.
pub proof fn lemma_grid_of_cell(pixels: Seq<u8>, width: u32, height: u32, x: int, y: int)
    requires
        0 <= x < width,
        0 <= y < height,
    ensures
        0 <= y * width + x < width * height,
        grid_of(pixels, width, height)[y * width + x] == (GridCell {
            x: x as u64,
            y: y as u64,
            source: pixel_at(pixels, width as int, x, height - 1 - y),
        }),
{
    lemma_fundamental_div_mod_converse(y * width + x, width as int, y, x);
    assert(0 <= y * width && y * width + width <= height * width) by (nonlinear_arith)
        requires
            0 <= y < height,
            0 <= width,
    ;
    assert(height * width == width * height) by (nonlinear_arith);
}

/// The grid read from a picture covers the picture's positions, each once.
pub proof fn lemma_grid_of_covers(pixels: Seq<u8>, width: u32, height: u32)
    ensures
        covers_grid(cell_positions(grid_of(pixels, width, height)), width as int, height as int),
{
    broadcast use vstd::seq_lib::group_to_multiset_ensures;

    let grid = grid_of(pixels, width, height);
    let places = cell_positions(grid);
    let w = width as int;
    assert forall|i: int| 0 <= i < places.len() implies {
        &&& (#[trigger] places[i]).0 == i % w
        &&& places[i].1 == i / w
        &&& i % w < width
        &&& i / w < height
    } by {
        assert(w > 0) by (nonlinear_arith)
            requires
                0 <= i < width * height,
                w == width,
        ;
        vstd::arithmetic::div_mod::lemma_fundamental_div_mod(i, w);
        vstd::arithmetic::div_mod::lemma_mod_bound(i, w);
        assert(0 <= i / w < height) by (nonlinear_arith)
            requires
                0 <= i < w * height,
                i == w * (i / w) + i % w,
                0 <= i % w < w,
        ;
    }
    assert forall|i: int, j: int| 0 <= i < places.len() && 0 <= j < places.len() && i
        != j implies places[i] != places[j] by {
        vstd::arithmetic::div_mod::lemma_fundamental_div_mod(i, w);
        vstd::arithmetic::div_mod::lemma_fundamental_div_mod(j, w);
    }
    places.lemma_multiset_has_no_duplicates();
    assert forall|x: u64, y: u64| #[trigger]
        places.to_multiset().count((x, y)) == (if x < width && y < height {
            1nat
        } else {
            0nat
        }) by {
        if x < width && y < height {
            lemma_grid_of_cell(pixels, width, height, x as int, y as int);
            assert(places[y * width + x] == (x, y));
            assert(places.contains((x, y)));
        } else {
            if places.contains((x, y)) {
                let i = places.index_of((x, y));
                assert(places[i] == (x, y));
            }
        }
    }
}

/// `factor * a * b`, which cannot overflow for a small factor.
fn scaled_area(factor: u8, a: u32, b: u32) -> (res: u128)
    ensures
        res == factor * a * b,
{
    assert(a * b <= 0xffff_ffff * 0xffff_ffff) by (nonlinear_arith)
        requires
            0 <= a <= 0xffff_ffff,
            0 <= b <= 0xffff_ffff,
    ;
    let area: u64 = (a as u64) * (b as u64);
    assert(factor * area <= 255 * 0xffff_ffff_ffff_ffff) by (nonlinear_arith)
        requires
            0 <= factor <= 255,
            0 <= area <= 0xffff_ffff_ffff_ffff,
    ;
    assert(factor * a * b == factor * (a * b)) by (nonlinear_arith);
    (factor as u128) * (area as u128)
}

/// Reads the grid from a picture that has one pixel per cell: `pixels`
/// holds `width * height` pixels of three bytes each, top row first. The
/// cells come row by row, and cell rows count from the bottom of the
/// picture. A buffer of any other length is an image error.
pub fn grid_from_pixels(pixels: &Vec<u8>, width: u32, height: u32) -> (res: Result<
    Vec<GridCell>,
    ErrorKind,
>)
    ensures
        match res {
            Ok(grid) => pixels@.len() == rgb_len(width, height) && grid@ == grid_of(
                pixels@,
                width,
                height,
            ),
            Err(e) => pixels@.len() != rgb_len(width, height) && e == ErrorKind::ImageError,
        },
{
    if pixels.len() as u128 != scaled_area(3, width, height) {
        return Err(ErrorKind::ImageError);
    }
    let mut grid: Vec<GridCell> = Vec::new();
    let mut y: u32 = 0;
    while y < height
        invariant
            y <= height,
            pixels@.len() == 3 * width * height,
            pixels@.len() <= usize::MAX,
            grid@.len() == y * width,
            forall|i: int|
                0 <= i < grid@.len() ==> #[trigger] grid@[i] == grid_cell(
                    pixels@,
                    width as int,
                    height as int,
                    i,
                ),
        decreases height - y,
    {
        let mut x: u32 = 0;
        while x < width
            invariant
                x <= width,
                y < height,
                pixels@.len() == 3 * width * height,
                pixels@.len() <= usize::MAX,
                grid@.len() == y * width + x,
                forall|i: int|
                    0 <= i < grid@.len() ==> #[trigger] grid@[i] == grid_cell(
                        pixels@,
                        width as int,
                        height as int,
                        i,
                    ),
            decreases width - x,
        {
            let row: u32 = height - 1 - y;
            proof {
                assert(0 <= row * width && row * width + width <= height * width)
                    by (nonlinear_arith)
                    requires
                        0 <= row < height,
                        0 <= width,
                ;
                lemma_fundamental_div_mod_converse(y * width + x, width as int, y as int, x as int);
                assert(height * width == width * height) by (nonlinear_arith);
                assert(3 * (row * width + x) + 2 < 3 * width * height) by (nonlinear_arith)
                    requires
                        row * width + width <= width * height,
                        x < width,
                ;
                assert(0 <= row * width <= row * width + x);
            }
            let at: usize = 3 * (row as usize * width as usize + x as usize);
            let source = Rgb { r: pixels[at], g: pixels[at + 1], b: pixels[at + 2] };
            grid.push(GridCell { x: x as u64, y: y as u64, source });
            x += 1;
        }
        proof {
            assert((y + 1) * width == y * width + width) by (nonlinear_arith);
        }
        y += 1;
    }
    proof {
        assert(height * width == width * height) by (nonlinear_arith);
        assert(grid@ =~= grid_of(pixels@, width, height));
    }
    Ok(grid)
}

/// The bytes of the picture that `image` returns when it resizes the picture
/// in `pixels`, of `width` by `height` pixels, to `new_width` by
/// `new_height` pixels with its nearest-neighbor filter.
pub uninterp spec fn nearest_resampled(
    pixels: Seq<u8>,
    width: u32,
    height: u32,
    new_width: u32,
    new_height: u32,
) -> Seq<u8>;

/// The buffers that resizing allocates can be addressed on this machine.
///
/// `image` holds the picture with three bytes per pixel and works on a
/// scratch picture, as wide as the old one and as high as the new one, with
/// four numbers of four bytes per pixel. It finds the length of a buffer by
/// multiplying the numbers per pixel by the width first and by the height
/// then, so a row must fit a machine integer even where there are no rows.
pub open spec fn resample_fits(width: u32, new_width: u32, new_height: u32) -> bool {
    &&& 4 * width <= usize::MAX
    &&& 3 * new_width <= usize::MAX
    &&& 16 * width * new_height <= isize::MAX
    &&& 3 * new_width * new_height <= isize::MAX
}

/// Calls `image::DynamicImage::resize_exact` with `FilterType::Nearest` on
/// the picture that `pixels` holds as 8-bit RGB. The result has exactly the
/// dimensions asked for, so its buffer holds three bytes per new pixel. What
/// the bytes are is a function of the arguments alone and goes by the name
/// `nearest_resampled`. The sizes demanded are those for which `image` can
/// compute the length of every buffer it allocates on the way, row by row,
/// and for which these buffers stay within what a vector can hold.
#[verifier::external_body]
fn resample_nearest(pixels: Vec<u8>, width: u32, height: u32, new_width: u32, new_height: u32) -> (res:
    Vec<u8>)
    requires
        pixels@.len() == rgb_len(width, height),
        resample_fits(width, new_width, new_height),
    ensures
        res@.len() == rgb_len(new_width, new_height),
        res@ == nearest_resampled(pixels@, width, height, new_width, new_height),
{
    let picture = RgbImage::from_raw(width, height, pixels).unwrap();
    DynamicImage::ImageRgb8(picture).resize_exact(
        new_width,
        new_height,
        FilterType::Nearest,
    ).into_rgb8().into_raw()
}

fn check_resample_fits(width: u32, new_width: u32, new_height: u32) -> (res: bool)
    ensures
        res == resample_fits(width, new_width, new_height),
{
    let longest: u64 = usize::MAX as u64;
    let largest: u128 = isize::MAX as u128;
    4 * (width as u64) <= longest && 3 * (new_width as u64) <= longest && scaled_area(
        16,
        width,
        new_height,
    ) <= largest && scaled_area(3, new_width, new_height) <= largest
}

/// Samples a picture onto a grid of `grid_width` by `grid_height` cells.
/// `pixels` holds the picture as 8-bit RGB, `width * height` pixels of three
/// bytes each, top row first. The picture is resized to one pixel per cell
/// without blending, and the grid is read from the result bottom row first.
///
/// A buffer that does not match the picture's dimensions is an image error.
/// Sizes for which `resample_fits` fails, a grid too large or a row too long
/// for this machine to resize, are a configuration error.
pub fn sample_grid(
    pixels: Vec<u8>,
    width: u32,
    height: u32,
    grid_width: u32,
    grid_height: u32,
) -> (res: Result<Vec<GridCell>, ErrorKind>)
    ensures
        match res {
            Ok(grid) => {
                &&& pixels@.len() == rgb_len(width, height)
                &&& resample_fits(width, grid_width, grid_height)
                &&& grid@ == grid_of(
                    nearest_resampled(pixels@, width, height, grid_width, grid_height),
                    grid_width,
                    grid_height,
                )
            },
            Err(e) => if pixels@.len() != rgb_len(width, height) {
                e == ErrorKind::ImageError
            } else {
                !resample_fits(width, grid_width, grid_height) && e == ErrorKind::ConfigError
            },
        },
{
    if pixels.len() as u128 != scaled_area(3, width, height) {
        return Err(ErrorKind::ImageError);
    }
    if !check_resample_fits(width, grid_width, grid_height) {
        return Err(ErrorKind::ConfigError);
    }
    let resized = resample_nearest(pixels, width, height, grid_width, grid_height);
    grid_from_pixels(&resized, grid_width, grid_height)
}

} // verus!
