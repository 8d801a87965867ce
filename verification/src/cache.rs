//! The neighbour cache: for each column, the decoded cell that lies north of
//! the cell about to be processed.

use vstd::prelude::*;

verus! {

/// A fixed-width row of slots, one per column. A slot holds a decoded cell
/// handle or nothing ("no neighbour").
#[derive(Debug)]
pub struct NeighborCache<H> {
    slots: Vec<Option<H>>,
}

impl<H> View for NeighborCache<H> {
    type V = Seq<Option<H>>;

    closed spec fn view(&self) -> Seq<Option<H>> {
        self.slots@
    }
}

impl<H> NeighborCache<H> {
    /// A cache of `width` slots, none of which knows a neighbour.
    pub fn new(width: usize) -> (cache: Self)
        ensures
            cache@ == Seq::new(width as nat, |x: int| None::<H>),
    {
        let mut slots: Vec<Option<H>> = Vec::new();
        let mut x: usize = 0;
        while x < width
            invariant
                x <= width,
                slots@ == Seq::new(x as nat, |x: int| None::<H>),
            decreases width - x,
        {
            slots.push(None);
            x += 1;
        }
        NeighborCache { slots }
    }

    /// Number of slots.
    pub fn width(&self) -> (w: usize)
        ensures
            w == self@.len(),
    {
        self.slots.len()
    }

    /// Sets the slot of `column` before a scan begins.
    pub fn seed(&mut self, column: usize, handle: Option<H>)
        requires
            column < old(self)@.len(),
        ensures
            final(self)@ == old(self)@.update(column as int, handle),
    {
        self.slots.set(column, handle);
    }

    /// Replaces the slot of `column` once the cell of that column has been
    /// processed.
    pub fn update(&mut self, column: usize, handle: Option<H>)
        requires
            column < old(self)@.len(),
        ensures
            final(self)@ == old(self)@.update(column as int, handle),
    {
        self.slots.set(column, handle);
    }

    /// The neighbour that the slot of `column` holds.
    pub fn neighbor(&self, column: usize) -> (north: Option<&H>)
        requires
            column < self@.len(),
        ensures
            crate::cell::pointee(north) == self@[column as int],
    {
        self.slots[column].as_ref()
    }
}

} // verus!
