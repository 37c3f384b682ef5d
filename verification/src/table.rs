use vstd::prelude::*;

use crate::header::{CgcHeader, Color};
use crate::model;
use crate::model::HeadersView;

verus! {

/// The headers of all boxes, each at the pointer of its box, and the boxes whose contents are
/// still to be darkened.
pub struct Headers {
    slots: Vec<Option<CgcHeader>>,
    pending: Vec<usize>,
}

impl View for Headers {
    type V = HeadersView;

    closed spec fn view(&self) -> HeadersView {
        HeadersView { slots: self.slots@, pending: self.pending@ }
    }
}

impl Headers {
    /// A table of no boxes.
    pub fn new() -> (table: Headers)
        ensures
            table@.slots == Seq::<Option<CgcHeader>>::empty(),
            table@.pending == Seq::<usize>::empty(),
    {
        Headers { slots: Vec::new(), pending: Vec::new() }
    }

    /// How many pointers the table covers.
    pub fn len(&self) -> (n: usize)
        ensures
            n == self@.slots.len(),
    {
        self.slots.len()
    }

    /// The header of the box at `p`, if there is one.
    pub fn get(&self, p: usize) -> (header: Option<CgcHeader>)
        ensures
            header == (if p < self@.slots.len() {
                self@.slots[p as int]
            } else {
                None
            }),
    {
        if p < self.slots.len() {
            self.slots[p]
        } else {
            None
        }
    }

    /// The header of the box at `p`.
    pub fn at(&self, p: usize) -> (header: CgcHeader)
        requires
            model::has(self@.slots, p),
        ensures
            header == model::header_at(self@.slots, p),
    {
        self.slots[p].unwrap()
    }

    /// Adds a pointer to the end of the table, with a box there.
    pub fn push(&mut self, header: CgcHeader)
        ensures
            final(self)@.slots == old(self)@.slots.push(Some(header)),
            final(self)@.slots.len() <= usize::MAX,
            final(self)@.pending == old(self)@.pending,
    {
        self.slots.push(Some(header));
        let _ = self.slots.len();
    }

    /// Puts a header at `p`.
    pub fn put(&mut self, p: usize, header: CgcHeader)
        requires
            p < old(self)@.slots.len(),
        ensures
            final(self)@.slots == model::set_header(old(self)@.slots, p, header),
            final(self)@.pending == old(self)@.pending,
    {
        self.slots.set(p, Some(header));
    }

    /// Takes the box at `p` off the table.
    pub fn remove(&mut self, p: usize)
        requires
            p < old(self)@.slots.len(),
        ensures
            final(self)@.slots == old(self)@.slots.update(p as int, None),
            final(self)@.pending == old(self)@.pending,
    {
        self.slots.set(p, None);
    }

    /// Roots the box at `p`.
    pub fn root(&mut self, p: usize)
        requires
            model::has(old(self)@.slots, p),
        ensures
            final(self)@.slots == model::set_header(
                old(self)@.slots,
                p,
                model::header_at(old(self)@.slots, p).rooted(),
            ),
            final(self)@.pending == old(self)@.pending,
    {
        let mut header = self.at(p);
        header.root();
        self.put(p, header);
    }

    /// Unroots the box at `p`.
    pub fn unroot(&mut self, p: usize)
        requires
            model::has(old(self)@.slots, p),
        ensures
            final(self)@.slots == model::set_header(
                old(self)@.slots,
                p,
                model::header_at(old(self)@.slots, p).unrooted(),
            ),
            final(self)@.pending == old(self)@.pending,
    {
        let mut header = self.at(p);
        header.unroot();
        self.put(p, header);
    }

    /// Blackens the box at `p` if it is white, and notes that its contents are to be darkened.
    pub fn darken(&mut self, p: usize)
        requires
            model::has(old(self)@.slots, p),
        ensures
            final(self)@ == model::darken_one(old(self)@, p),
    {
        let mut header = self.at(p);
        if header.color == Color::White {
            header.color = Color::Black;
            self.put(p, header);
            self.pending.push(p);
        }
    }

    /// Takes out the box whose contents are to be darkened next: the one noted last.
    pub fn next_pending(&mut self) -> (p: Option<usize>)
        ensures
            final(self)@.slots == old(self)@.slots,
            old(self)@.pending.len() == 0 ==> p is None && final(self)@.pending
                == old(self)@.pending,
            old(self)@.pending.len() > 0 ==> p == Some(old(self)@.pending.last())
                && final(self)@.pending == old(self)@.pending.drop_last(),
    {
        self.pending.pop()
    }
}

} // verus!
