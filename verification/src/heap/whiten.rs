use vstd::prelude::*;

use crate::compat::CgcCompat;
use crate::header::{CgcHeader, Color, NULL};
use crate::lemmas;
use crate::model;
use crate::model::HeapView;
use crate::phase::Phase;
use crate::heap::Heap;

verus! {

/// The header of a box that has just been whitened: it starts out gray if it has a root.
pub open spec fn whitened(header: CgcHeader) -> CgcHeader {
    CgcHeader { color: if header.roots > 0 { Color::Gray } else { Color::White }, ..header }
}

/// What starting to whiten the boxes does to a heap.
pub open spec fn begun<D: CgcCompat>(before: HeapView<D>, after: HeapView<D>) -> bool {
    after == (HeapView { phase: Phase::Whiten { at: before.box_chain }, done: 0, ..before })
}

/// What whitening the next box does to a heap.
pub open spec fn whitened_next<D: CgcCompat>(before: HeapView<D>, after: HeapView<D>) -> bool {
    let at = before.phase->Whiten_at;
    &&& before.has(at)
    &&& after == (HeapView {
        headers: model::set_header(before.headers, at, whitened(before.header(at))),
        phase: Phase::Whiten { at: before.header(at).next },
        done: before.done + 1,
        ..before
    })
}

impl<D: CgcCompat> Heap<D> {
    /// Starts to whiten the boxes, at the first one.
    pub fn begin(&mut self)
        requires
            old(self).wf(),
            old(self)@.phase is Idle,
        ensures
            final(self).wf(),
            begun(old(self)@, final(self)@),
    {
        self.phase = Phase::Whiten { at: self.box_chain };
        proof {
            self.lists@.done = 0;
            lemmas::filled_frame(old(self)@, self@);
            lemmas::sorted_frame(old(self)@, self@);
        }
    }

    /// Gives the next box the color that it starts with. Returns whether there was one.
    pub fn whiten_next(&mut self) -> (visited: bool)
        requires
            old(self).wf(),
            old(self)@.phase is Whiten,
        ensures
            final(self).wf(),
            visited == (old(self)@.phase->Whiten_at != NULL),
            !visited ==> final(self)@ == old(self)@,
            visited ==> whitened_next(old(self)@, final(self)@),
    {
        let at: usize = match self.phase {
            Phase::Whiten { at } => at,
            _ => NULL,
        };
        if at == NULL {
            return false;
        }
        proof {
            let i = self@.done;
            assert(self@.chain[i] == at);
            assert(self@.chain.contains(at));
            assert(self@.has(at));
        }
        let mut header = self.headers.at(at);
        header.color = Color::White;
        if header.roots > 0 {
            header.color = Color::Gray;
        }
        self.headers.put(at, header);
        self.phase = Phase::Whiten { at: header.next };
        proof {
            self.lists@.done = self.lists@.done + 1;
            let before = old(self)@;
            let after = self@;
            assert(forall|p: usize| after.has(p) == before.has(p));
            lemmas::linked_frame(before.headers, after.headers, after.chain, after.box_chain);
            lemmas::total_update(before.headers, at as int, Some(header));
            lemmas::filled_frame(before, after);
            lemmas::sorted_frame(before, after);
        }
        true
    }
}

} // verus!
