//! From a picture and a palette to the finished layout.

use vstd::prelude::*;
use rand::rngs::StdRng;
use crate::error::ErrorKind;
use crate::grid::GridCell;
use crate::inventory::{total_stock, Inventory};
use crate::layout::{
    enumerates_rows, lemma_sorted_cover_enumerates, lemma_sorted_layout_counts, sort_layout,
    sorted_layout,
};
use crate::quantizer::{
    count_of, lemma_arrangement_covers, quantize, run, settled, Assignment,
};
use crate::sampler::{
    grid_of, lemma_grid_of_covers, nearest_resampled, resample_fits, rgb_len, sample_grid,
};

verus! {

/// Why building a mosaic fails, if it does: a pixel buffer that does not
/// match the picture's dimensions, then sizes that this machine cannot
/// resize, then a stock with fewer pieces than the grid has cells.
pub open spec fn mosaic_error(
    pixels: Seq<u8>,
    width: u32,
    height: u32,
    grid_width: u32,
    grid_height: u32,
    stock: int,
) -> Option<ErrorKind> {
    if pixels.len() != rgb_len(width, height) {
        Some(ErrorKind::ImageError)
    } else if !resample_fits(width, grid_width, grid_height) {
        Some(ErrorKind::ConfigError)
    } else if stock < grid_width * grid_height {
        Some(ErrorKind::InventoryExhausted)
    } else {
        None
    }
}

/// Builds the mosaic of a picture: samples the picture onto the grid,
/// assigns a palette entry to every cell in a random order of visit, and
/// puts the assignments into row-major order.
///
/// The layout that comes back has one assignment for each position of the
/// grid, the one for `(x, y)` at index `y * grid_width + x`, and the stock
/// has lost one piece for each. Which entry a cell got depends on the order
/// of the visit; whether the mosaic can be built does not. A picture or a
/// grid that is refused leaves the stock as it was.
pub fn build_mosaic(
    pixels: Vec<u8>,
    width: u32,
    height: u32,
    grid_width: u32,
    grid_height: u32,
    inventory: &mut Inventory,
    rng: &mut StdRng,
) -> (res: Result<Vec<Assignment>, ErrorKind>)
    ensures
        match mosaic_error(
            pixels@,
            width,
            height,
            grid_width,
            grid_height,
            total_stock(old(inventory)@),
        ) {
            Some(ErrorKind::InventoryExhausted) => res is Err && settled(
                old(inventory)@,
                final(inventory)@,
                res,
                grid_width * grid_height,
            ),
            Some(e) => res == Err::<Vec<Assignment>, ErrorKind>(e) && final(inventory)@ == old(
                inventory,
            )@,
            None => res is Ok && settled(
                old(inventory)@,
                final(inventory)@,
                res,
                grid_width * grid_height,
            ),
        },
        res matches Ok(layout) ==> {
            &&& enumerates_rows(layout@, grid_width as int)
            &&& exists|order: Seq<GridCell>|
                {
                    &&& #[trigger] order.to_multiset() == grid_of(
                        nearest_resampled(pixels@, width, height, grid_width, grid_height),
                        grid_width,
                        grid_height,
                    ).to_multiset()
                    &&& !run(old(inventory)@, order).failed
                    &&& layout@ == sorted_layout(run(old(inventory)@, order).assigned)
                    &&& final(inventory)@ == run(old(inventory)@, order).stock
                }
        },
{
    let grid = match sample_grid(pixels, width, height, grid_width, grid_height) {
        Ok(grid) => grid,
        Err(e) => {
            return Err(e);
        },
    };
    match quantize(&grid, inventory, rng) {
        Ok(assigned) => {
            let layout = sort_layout(&assigned);
            proof {
                lemma_grid_of_covers(
                    nearest_resampled(pixels@, width, height, grid_width, grid_height),
                    grid_width,
                    grid_height,
                );
                lemma_arrangement_covers(
                    assigned@,
                    grid@,
                    grid_width as int,
                    grid_height as int,
                );
                lemma_sorted_cover_enumerates(assigned@, grid_width as int, grid_height as int);
                assert forall|j: int| 0 <= j < old(inventory)@.len() implies count_of(layout@, j)
                    == count_of(assigned@, j) by {
                    lemma_sorted_layout_counts(assigned@, j);
                }
                lemma_sorted_layout_counts(assigned@, 0);
            }
            Ok(layout)
        },
        Err(e) => Err(e),
    }
}

} // verus!
