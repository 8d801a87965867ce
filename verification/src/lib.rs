//! Rendering of map tiles.
//!
//! A tile is a grid of cells, each of which is decoded on its own and drawn
//! as one block of the tile's image. How a cell is shaded depends on the cell
//! north of it, which for the first row lies in the tile further north. The
//! [`compositor`] draws a tile in one scan, keeping for each column the last
//! decoded cell in a [`cache`], and leaves out the cells that are absent or
//! cannot be decoded. The [`renderer`] encodes the image as a PNG file, and
//! [`keys`] names the stored region files and images. [`laws`] states what
//! holds of every composition.

pub mod cache;
pub mod cell;
pub mod compositor;
pub mod grid;
pub mod keys;
pub mod laws;
pub mod output;
pub mod pixel;
pub mod renderer;
