use vstd::prelude::*;

use crate::compat::CgcCompat;
use crate::header::{CgcHeader, NULL};
use crate::model::HeapView;
use crate::phase::Phase;
use crate::table::Headers;

pub mod blacken;
pub mod collect;
pub(crate) mod darken;
pub mod mutate;
pub mod step;
pub mod sweep;
pub mod whiten;

verus! {

/// How many bytes may be allocated before the first collection, and at least how many between
/// two collections.
pub const INITIAL_HEAP_SIZE: isize = 1024;

/// The lists that the boxes are on.
pub struct Lists {
    pub chain: Seq<usize>,
    pub detached: Seq<usize>,
    pub black: Seq<usize>,
    pub done: int,
}

/// A heap of boxes that are freed once nothing reaches them any more. Each box holds a value of
/// type `D`.
///
/// A collection runs in steps, and every other operation may be done between any two of them.
pub struct Heap<D: CgcCompat> {
    headers: Headers,
    payloads: Vec<Option<D>>,
    /// The pointers below the end of the table at which there is no box.
    vacant: Vec<usize>,
    box_chain: usize,
    allocated: usize,
    heap_space: isize,
    collecting: bool,
    phase: Phase,
    lists: Ghost<Lists>,
}

impl<D: CgcCompat> View for Heap<D> {
    type V = HeapView<D>;

    closed spec fn view(&self) -> HeapView<D> {
        HeapView {
            headers: self.headers@.slots,
            payloads: self.payloads@,
            box_chain: self.box_chain,
            chain: self.lists@.chain,
            detached: self.lists@.detached,
            black: self.lists@.black,
            done: self.lists@.done,
            allocated: self.allocated,
            heap_space: self.heap_space,
            collecting: self.collecting,
            phase: self.phase,
        }
    }
}

impl<D: CgcCompat> Heap<D> {
    /// The parts of the heap agree with each other.
    pub closed spec fn wf(&self) -> bool {
        &&& self@.wf()
        &&& self.headers@.pending.len() == 0
        &&& self.vacancies()
    }

    spec fn vacancies(&self) -> bool {
        &&& self.vacant@.no_duplicates()
        &&& forall|p: usize| #[trigger]
            self.vacant@.contains(p) <==> p < self@.headers.len() && !self@.has(p)
    }

    /// Every heap is well formed, and then so is what it holds.
    pub proof fn wf_view(&self)
        requires
            self.wf(),
        ensures
            self@.wf(),
    {
    }

    /// A heap of no boxes.
    pub fn new() -> (heap: Heap<D>)
        ensures
            heap.wf(),
            heap@.headers == Seq::<Option<CgcHeader>>::empty(),
            heap@.payloads == Seq::<Option<D>>::empty(),
            heap@.box_chain == NULL,
            heap@.allocated == 0,
            heap@.heap_space == INITIAL_HEAP_SIZE,
            !heap@.collecting,
            heap@.phase is Idle,
    {
        Heap {
            headers: Headers::new(),
            payloads: Vec::new(),
            vacant: Vec::new(),
            box_chain: NULL,
            allocated: 0,
            heap_space: INITIAL_HEAP_SIZE,
            collecting: false,
            phase: Phase::Idle,
            lists: Ghost(
                Lists {
                    chain: Seq::empty(),
                    detached: Seq::empty(),
                    black: Seq::empty(),
                    done: 0,
                },
            ),
        }
    }

    /// How many bytes have been allocated and not been freed.
    pub fn allocated(&self) -> (bytes: usize)
        ensures
            bytes == self@.allocated,
    {
        self.allocated
    }

    /// How many bytes may be allocated before the next collection.
    pub fn heap_space(&self) -> (bytes: isize)
        ensures
            bytes == self@.heap_space,
    {
        self.heap_space
    }

    /// Whether a collection has been started and has not ended.
    pub fn collecting(&self) -> (collecting: bool)
        ensures
            collecting == self@.collecting,
    {
        self.collecting
    }

    /// How far the collection under way has come.
    pub fn phase(&self) -> (phase: Phase)
        ensures
            phase == self@.phase,
    {
        self.phase
    }

    /// Whether there is a box at `p`.
    pub fn contains(&self, p: usize) -> (there: bool)
        ensures
            there == self@.has(p),
    {
        self.headers.get(p).is_some()
    }

    /// The header of the box at `p`.
    pub fn header(&self, p: usize) -> (header: CgcHeader)
        requires
            self.wf(),
            self@.has(p),
        ensures
            header == self@.header(p),
    {
        self.headers.at(p)
    }

    /// The value in the box at `p`.
    pub fn data(&self, p: usize) -> (value: &D)
        requires
            self.wf(),
            self@.has(p),
        ensures
            *value == self@.payload(p),
    {
        self.payloads[p].as_ref().unwrap()
    }
}

} // verus!
