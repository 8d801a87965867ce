//! Grid cells and the collaborators a compositor depends on: the source of a
//! tile's cells, the decoder of raw cell data and the shading model.
//!
//! Each collaborator is a trait. Its `spec` functions are the model of an
//! implementation: they say what its executable methods return, and the
//! compositor's contracts are stated over them. A verified implementation
//! defines them and proves its methods against them. They have a default so
//! that an implementation in unverified code need only give the executable
//! methods; of such an implementation the contracts hold as far as its
//! methods are functions of their arguments, as the traits ask.

use vstd::prelude::*;
use crate::pixel::Rgba;

verus! {

/// One element of a tile's grid.
#[derive(Debug)]
pub enum Cell<R> {
    /// Data is recorded at this position.
    Present(R),
    /// Nothing is recorded at this position.
    Absent,
}

/// Raw cell data that could not be decoded.
#[derive(Clone, Copy, Debug, PartialEq, Eq, Structural)]
pub struct DecodeError {}

/// What a shared reference optionally points at.
pub open spec fn pointee<H>(r: Option<&H>) -> Option<H> {
    match r {
        Some(h) => Some(*h),
        None => None,
    }
}

/// A tile: a grid of `grid_width() * grid_height()` cells that can be fetched
/// by coordinate. Fetching has no effect and never fails: an empty position
/// is the value `Cell::Absent`. The grid does not change between calls.
pub trait CellSource {
    /// The undecoded data of a present cell.
    type Raw;

    /// Number of columns.
    open spec fn grid_width(&self) -> nat {
        arbitrary()
    }

    /// Number of rows.
    open spec fn grid_height(&self) -> nat {
        arbitrary()
    }

    /// The cell at column `x`, row `z`.
    open spec fn cell_at(&self, x: nat, z: nat) -> Cell<Self::Raw> {
        arbitrary()
    }

    /// Number of columns.
    fn width(&self) -> (w: usize)
        ensures
            w == self.grid_width(),
    ;

    /// Number of rows.
    fn height(&self) -> (h: usize)
        ensures
            h == self.grid_height(),
    ;

    /// The cell at column `x`, row `z`.
    fn fetch(&self, x: usize, z: usize) -> (cell: Cell<Self::Raw>)
        requires
            x < self.grid_width(),
            z < self.grid_height(),
        ensures
            cell == self.cell_at(x as nat, z as nat),
    ;
}

/// Turns raw cell data into a decoded cell handle, or fails on corrupt data.
/// What comes out depends on the raw data alone.
pub trait Decoder {
    /// The undecoded data of a cell.
    type Raw;

    /// A decoded cell.
    type Handle;

    /// The handle that `raw` decodes to, `None` where `raw` is corrupt.
    open spec fn decoding(&self, raw: Self::Raw) -> Option<Self::Handle> {
        arbitrary()
    }

    /// Decodes `raw`.
    fn decode(&self, raw: Self::Raw) -> (r: Result<Self::Handle, DecodeError>)
        ensures
            r is Ok <==> self.decoding(raw) is Some,
            r matches Ok(h) ==> self.decoding(raw) == Some(h),
    ;
}

/// Turns a decoded cell and its optional north neighbour into a block of
/// `block_width() * block_height()` samples, row by row. The block depends
/// on the two cells alone.
pub trait ShadingModel {
    /// A decoded cell.
    type Handle;

    /// Samples per row of a block.
    open spec fn block_width(&self) -> nat {
        arbitrary()
    }

    /// Rows of a block.
    open spec fn block_height(&self) -> nat {
        arbitrary()
    }

    /// The block for `cell` shaded against `north`.
    open spec fn shading(&self, cell: Self::Handle, north: Option<Self::Handle>) -> Seq<Rgba> {
        arbitrary()
    }

    /// Samples per row of a block.
    fn cell_pixel_width(&self) -> (w: usize)
        ensures
            w == self.block_width(),
    ;

    /// Rows of a block.
    fn cell_pixel_height(&self) -> (h: usize)
        ensures
            h == self.block_height(),
    ;

    /// The block for `cell` shaded against `north`.
    fn render(&self, cell: &Self::Handle, north: Option<&Self::Handle>) -> (block: Vec<Rgba>)
        ensures
            block@ == self.shading(*cell, pointee(north)),
            block@.len() == self.block_width() * self.block_height(),
    ;
}

} // verus!
