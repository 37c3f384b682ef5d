use vstd::prelude::*;

use crate::model;
use crate::table::Headers;

verus! {

/// A value that can be stored on the heap. Each method passes over every handle that the value
/// holds.
pub trait CgcCompat: Sized + Send + Sync {
    /// The pointers of the handles that the value holds, in the order in which the methods pass
    /// over them. Unless a type says otherwise, its values hold no handles.
    open spec fn refs(&self) -> Seq<usize> {
        Seq::empty()
    }

    /// Every handle in the value is rooted, or every handle in it is not.
    open spec fn flagged(&self, rooted: bool) -> bool {
        true
    }

    /// The same value with every handle in it rooted, or with none of them rooted.
    open spec fn set_rooted(self, rooted: bool) -> Self {
        self
    }

    /// Roots every handle in the value. None of them may be rooted already.
    fn root(&mut self, table: &mut Headers)
        requires
            old(self).flagged(false),
            model::has_all(old(table)@.slots, old(self).refs()),
        ensures
            *final(self) == old(self).set_rooted(true),
            final(self).flagged(true),
            final(self).refs() == old(self).refs(),
            final(table)@.slots == model::root_all(old(table)@.slots, old(self).refs()),
            final(table)@.pending == old(table)@.pending,
    ;

    /// Unroots every handle in the value. All of them have to be rooted.
    fn unroot(&mut self, table: &mut Headers)
        requires
            old(self).flagged(true),
            model::has_all(old(table)@.slots, old(self).refs()),
        ensures
            *final(self) == old(self).set_rooted(false),
            final(self).flagged(false),
            final(self).refs() == old(self).refs(),
            final(table)@.slots == model::unroot_all(old(table)@.slots, old(self).refs()),
            final(table)@.pending == old(table)@.pending,
    ;

    /// Darkens the box of every handle in the value.
    fn darken(&self, table: &mut Headers)
        requires
            model::has_all(old(table)@.slots, self.refs()),
        ensures
            final(table)@ == model::darken_all(old(table)@, self.refs()),
    ;
}

impl CgcCompat for i32 {
    open spec fn refs(&self) -> Seq<usize> {
        Seq::empty()
    }

    open spec fn flagged(&self, rooted: bool) -> bool {
        true
    }

    open spec fn set_rooted(self, rooted: bool) -> i32 {
        self
    }

    fn root(&mut self, table: &mut Headers) {
    }

    fn unroot(&mut self, table: &mut Headers) {
    }

    fn darken(&self, table: &mut Headers) {
    }
}

impl<T: CgcCompat> CgcCompat for Option<T> {
    open spec fn refs(&self) -> Seq<usize> {
        match self {
            Some(value) => value.refs(),
            None => Seq::empty(),
        }
    }

    open spec fn flagged(&self, rooted: bool) -> bool {
        match self {
            Some(value) => value.flagged(rooted),
            None => true,
        }
    }

    open spec fn set_rooted(self, rooted: bool) -> Option<T> {
        match self {
            Some(value) => Some(value.set_rooted(rooted)),
            None => None,
        }
    }

    fn root(&mut self, table: &mut Headers) {
        match self {
            Some(value) => value.root(table),
            None => {},
        }
    }

    fn unroot(&mut self, table: &mut Headers) {
        match self {
            Some(value) => value.unroot(table),
            None => {},
        }
    }

    fn darken(&self, table: &mut Headers) {
        match self {
            Some(value) => value.darken(table),
            None => {},
        }
    }
}

} // verus!
