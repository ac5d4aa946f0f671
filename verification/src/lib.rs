//! Mosaics drawn from a finite stock of colors.
//!
//! A picture is sampled onto a grid of fixed size, and every cell of the
//! grid gets one color of a palette in which each color comes in a limited
//! number of pieces. A cell takes the palette color nearest to its own that
//! is still in stock, so the cells are visited in a random order to spread
//! the poorer matches over the picture.
//!
//! - [`color`]: colors and the weighted distance between them
//! - [`inventory`]: the palette, its stock, and the choice of the nearest
//!   color in stock
//! - [`grid`]: grid cells and what it means to cover a grid
//! - [`sampler`]: from the pixels of a picture to the grid
//! - [`quantizer`]: the run that assigns palette colors to cells
//! - [`layout`]: the row-major order of the finished mosaic
//! - [`report`]: the number of pieces used of each color
//! - [`pipeline`]: all of it in one call
//! - [`error`]: the ways a run can fail

pub mod color;
pub mod error;
pub mod grid;
pub mod inventory;
pub mod layout;
pub mod pipeline;
pub mod quantizer;
pub mod report;
pub mod sampler;
