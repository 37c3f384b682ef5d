use vstd::prelude::*;

verus! {

/// The pointer that ends a list of boxes. It is never the pointer of a box.
pub const NULL: usize = usize::MAX;

/// What the collector knows of a box.
#[derive(Clone, Copy, Debug, PartialEq, Eq, Structural)]
pub enum Color {
    /// Not found to be in use.
    White,
    /// In use, and its contents are still to be darkened.
    Gray,
    /// In use, and its contents have been darkened.
    Black,
}

/// The bookkeeping that goes with every box on the heap.
#[derive(Clone, Copy, Debug)]
pub struct CgcHeader {
    /// How many bytes the box takes.
    pub size: usize,
    pub color: Color,
    /// How many rooted handles point to the box.
    pub roots: usize,
    /// The box that follows in the list that this one is on.
    pub next: usize,
}

impl CgcHeader {
    /// The header after one more handle to the box has been rooted: a box that had no root is
    /// gray, because something outside of the heap can now reach it.
    pub open spec fn rooted(self) -> CgcHeader {
        CgcHeader {
            roots: if self.roots == usize::MAX { 0 } else { (self.roots + 1) as usize },
            color: if self.roots == 0 {
                Color::Gray
            } else {
                self.color
            },
            ..self
        }
    }

    /// The header after one handle to the box has been unrooted.
    pub open spec fn unrooted(self) -> CgcHeader {
        CgcHeader {
            roots: if self.roots == 0 { usize::MAX } else { (self.roots - 1) as usize },
            ..self
        }
    }

    /// The header of a box of `size` bytes that has just been made, on no list yet. It is gray,
    /// so that a collection under way takes it to be in use, and its maker holds the one root.
    pub fn new(size: usize) -> (header: CgcHeader)
        ensures
            header == (CgcHeader { size, color: Color::Gray, roots: 1, next: NULL }),
    {
        CgcHeader { size, color: Color::Gray, roots: 1, next: NULL }
    }

    /// Counts one more root, and colors the box gray if it had none. The count wraps around.
    pub fn root(&mut self)
        ensures
            *final(self) == old(self).rooted(),
    {
        let before: usize = self.roots;
        self.roots = before.wrapping_add(1);
        if before == 0 {
            self.color = Color::Gray;
        }
    }

    /// Counts one root less. The color stays as it is. The count wraps around.
    pub fn unroot(&mut self)
        ensures
            *final(self) == old(self).unrooted(),
    {
        self.roots = self.roots.wrapping_sub(1);
    }
}

} // verus!
