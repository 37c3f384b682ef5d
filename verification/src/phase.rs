use vstd::prelude::*;

verus! {

/// How far the collection under way has come.
#[derive(Clone, Copy, Debug)]
pub enum Phase {
    /// No collection is under way.
    Idle,
    /// The boxes get the color that they start with; `at` is the next one.
    Whiten { at: usize },
    /// The boxes that are in use are darkened and moved from the list at `head` to the list that
    /// goes from `black_head` to `black_tail`. The pass over the list at `head` has come to `at`,
    /// which follows `before`; `saw_grays` tells whether it has met a gray box.
    Blacken {
        head: usize,
        before: usize,
        at: usize,
        black_head: usize,
        black_tail: usize,
        saw_grays: bool,
    },
    /// The boxes on the list at `head` are freed; those freed so far took `freed` bytes.
    Sweep { head: usize, freed: usize },
}

} // verus!
