use vstd::prelude::*;

use crate::compat::CgcCompat;
use crate::header::{CgcHeader, Color, NULL};
use crate::phase::Phase;

verus! {

/// What a table of headers holds.
pub struct HeadersView {
    /// At each pointer, the header of the box there, if there is one.
    pub slots: Seq<Option<CgcHeader>>,
    /// The boxes that were blackened and whose contents are still to be darkened.
    pub pending: Seq<usize>,
}

/// There is a box at `p`.
pub open spec fn has(slots: Seq<Option<CgcHeader>>, p: usize) -> bool {
    p < slots.len() && slots[p as int] is Some
}

/// The header of the box at `p`.
pub open spec fn header_at(slots: Seq<Option<CgcHeader>>, p: usize) -> CgcHeader
    recommends
        has(slots, p),
{
    slots[p as int]->0
}

/// There is a box at each of the pointers.
pub open spec fn has_all(slots: Seq<Option<CgcHeader>>, refs: Seq<usize>) -> bool {
    forall|i: int| 0 <= i < refs.len() ==> has(slots, #[trigger] refs[i])
}

/// The table with the header of the box at `p` replaced.
pub open spec fn set_header(
    slots: Seq<Option<CgcHeader>>,
    p: usize,
    header: CgcHeader,
) -> Seq<Option<CgcHeader>> {
    slots.update(p as int, Some(header))
}

/// The table after each of the pointers has been rooted, one after the other.
pub open spec fn root_all(slots: Seq<Option<CgcHeader>>, refs: Seq<usize>) -> Seq<
    Option<CgcHeader>,
>
    decreases refs.len(),
{
    if refs.len() == 0 {
        slots
    } else {
        let before = root_all(slots, refs.drop_last());
        set_header(before, refs.last(), header_at(before, refs.last()).rooted())
    }
}

/// The table after each of the pointers has been unrooted, one after the other.
pub open spec fn unroot_all(slots: Seq<Option<CgcHeader>>, refs: Seq<usize>) -> Seq<
    Option<CgcHeader>,
>
    decreases refs.len(),
{
    if refs.len() == 0 {
        slots
    } else {
        let before = unroot_all(slots, refs.drop_last());
        set_header(before, refs.last(), header_at(before, refs.last()).unrooted())
    }
}

/// The table after `p` has been darkened: a white box is black, and its contents are to be
/// darkened in their turn. Any other box stays as it is.
pub open spec fn darken_one(table: HeadersView, p: usize) -> HeadersView {
    let header = header_at(table.slots, p);
    if header.color == Color::White {
        HeadersView {
            slots: set_header(table.slots, p, (CgcHeader { color: Color::Black, ..header })),
            pending: table.pending.push(p),
        }
    } else {
        table
    }
}

/// The table after each of the pointers has been darkened, one after the other.
pub open spec fn darken_all(table: HeadersView, refs: Seq<usize>) -> HeadersView
    decreases refs.len(),
{
    if refs.len() == 0 {
        table
    } else {
        darken_one(darken_all(table, refs.drop_last()), refs.last())
    }
}

/// The table after the contents of the box noted last have been darkened.
pub open spec fn darken_pending<D: CgcCompat>(
    table: HeadersView,
    payloads: Seq<Option<D>>,
) -> HeadersView {
    darken_all(
        HeadersView { slots: table.slots, pending: table.pending.drop_last() },
        refs_at(payloads, table.pending.last()),
    )
}

/// Each table comes from the one before it by darkening the contents of the box noted last.
pub open spec fn is_darkening<D: CgcCompat>(
    tables: Seq<HeadersView>,
    payloads: Seq<Option<D>>,
) -> bool {
    &&& tables.len() > 0
    &&& forall|i: int|
        0 <= i < tables.len() - 1 ==> (#[trigger] tables[i]).pending.len() > 0 && tables[i + 1]
            == darken_pending(tables[i], payloads)
}

/// How many boxes in the table are white.
pub open spec fn whites(slots: Seq<Option<CgcHeader>>) -> nat
    decreases slots.len(),
{
    if slots.len() == 0 {
        0
    } else {
        whites(slots.drop_last()) + is_white(slots.last())
    }
}

/// 1 if there is a white box, and 0 if not.
pub open spec fn is_white(slot: Option<CgcHeader>) -> nat {
    match slot {
        Some(header) => if header.color == Color::White {
            1
        } else {
            0
        },
        None => 0,
    }
}

/// Each box holds a value whose handles point to boxes.
pub open spec fn closed_under_refs<D: CgcCompat>(
    slots: Seq<Option<CgcHeader>>,
    payloads: Seq<Option<D>>,
) -> bool {
    forall|p: usize| #[trigger]
        has(slots, p) ==> p < payloads.len() && payloads[p as int] is Some && has_all(
            slots,
            refs_at(payloads, p),
        )
}

/// How many bytes all the boxes in the table take.
pub open spec fn total(slots: Seq<Option<CgcHeader>>) -> nat
    decreases slots.len(),
{
    if slots.len() == 0 {
        0
    } else {
        total(slots.drop_last()) + (match slots.last() {
            Some(header) => header.size as nat,
            None => 0,
        })
    }
}

/// How often `p` occurs in the sequence.
pub open spec fn occurrences(refs: Seq<usize>, p: usize) -> nat
    decreases refs.len(),
{
    if refs.len() == 0 {
        0
    } else {
        occurrences(refs.drop_last(), p) + (if refs.last() == p {
            1nat
        } else {
            0
        })
    }
}

/// The boxes in `list`, each linked to the one after it, starting at `head`.
pub open spec fn linked(slots: Seq<Option<CgcHeader>>, list: Seq<usize>, head: usize) -> bool {
    &&& head == first_of(list, 0)
    &&& forall|i: int|
        0 <= i < list.len() ==> has(slots, #[trigger] list[i]) && header_at(slots, list[i]).next
            == first_of(list, i + 1)
}

/// The pointer at position `i` of the list, or the one that ends it.
pub open spec fn first_of(list: Seq<usize>, i: int) -> usize {
    if 0 <= i < list.len() {
        list[i]
    } else {
        NULL
    }
}

/// What the box at `p` points to.
pub open spec fn refs_at<D: CgcCompat>(payloads: Seq<Option<D>>, p: usize) -> Seq<usize> {
    if p < payloads.len() && payloads[p as int] is Some {
        payloads[p as int]->0.refs()
    } else {
        Seq::empty()
    }
}

/// Each pointer on the path is held by the box before it.
pub open spec fn is_path<D: CgcCompat>(payloads: Seq<Option<D>>, path: Seq<usize>) -> bool {
    &&& path.len() > 0
    &&& forall|i: int|
        0 <= i < path.len() - 1 ==> refs_at(payloads, #[trigger] path[i]).contains(path[i + 1])
}

/// The box at `to` can be reached from the box at `from` by following what boxes hold.
pub open spec fn reaches<D: CgcCompat>(payloads: Seq<Option<D>>, from: usize, to: usize) -> bool {
    exists|path: Seq<usize>|
        #[trigger] is_path(payloads, path) && path.first() == from && path.last() == to
}

/// The box at `to` can be reached from the box at `from` over boxes that are all white, `to`
/// among them.
pub open spec fn reaches_white<D: CgcCompat>(
    slots: Seq<Option<CgcHeader>>,
    payloads: Seq<Option<D>>,
    from: usize,
    to: usize,
) -> bool {
    exists|path: Seq<usize>| #[trigger]
        is_path(payloads, path) && path.len() > 1 && path.first() == from && path.last() == to
            && all_white_after(slots, path)
}

/// Every pointer on the path but the first is that of a white box.
pub open spec fn all_white_after(slots: Seq<Option<CgcHeader>>, path: Seq<usize>) -> bool {
    forall|i: int|
        1 <= i < path.len() ==> has(slots, #[trigger] path[i]) && header_at(slots, path[i]).color
            == Color::White
}

/// The box at `p` is in use: it can be reached from a box that has a root.
pub open spec fn live<D: CgcCompat>(
    slots: Seq<Option<CgcHeader>>,
    payloads: Seq<Option<D>>,
    p: usize,
) -> bool {
    exists|root: usize| #[trigger]
        has(slots, root) && header_at(slots, root).roots > 0 && reaches(payloads, root, p)
}

/// What a heap holds, and how far the collection under way has come.
pub struct HeapView<D> {
    /// At each pointer, the header of the box there, if there is one.
    pub headers: Seq<Option<CgcHeader>>,
    /// At each pointer, the value in the box there, if there is one.
    pub payloads: Seq<Option<D>>,
    /// Where the list of all boxes starts that no collection has taken over.
    pub box_chain: usize,
    /// The boxes on that list.
    pub chain: Seq<usize>,
    /// The boxes that a collection has taken over and not found to be in use.
    pub detached: Seq<usize>,
    /// The boxes that a collection has taken over and found to be in use.
    pub black: Seq<usize>,
    /// How many boxes of the list that is being walked have been passed.
    pub done: int,
    /// How many bytes have been allocated and not been freed.
    pub allocated: usize,
    /// How many bytes may be allocated before the next collection.
    pub heap_space: isize,
    /// A collection has been started and has not ended.
    pub collecting: bool,
    pub phase: Phase,
}

impl<D: CgcCompat> HeapView<D> {
    pub open spec fn has(self, p: usize) -> bool {
        has(self.headers, p)
    }

    pub open spec fn header(self, p: usize) -> CgcHeader {
        header_at(self.headers, p)
    }

    pub open spec fn payload(self, p: usize) -> D {
        self.payloads[p as int]->0
    }

    pub open spec fn refs(self, p: usize) -> Seq<usize> {
        refs_at(self.payloads, p)
    }

    pub open spec fn live(self, p: usize) -> bool {
        live(self.headers, self.payloads, p)
    }

    /// The box at `p` is about to be freed.
    pub open spec fn doomed(self, p: usize) -> bool {
        self.phase is Sweep && self.detached.contains(p)
    }

    /// The bytes of the boxes that were freed and are still counted as allocated.
    pub open spec fn unaccounted(self) -> nat {
        match self.phase {
            Phase::Sweep { head, freed } => freed as nat,
            _ => 0,
        }
    }

    /// Nothing that the box at `p` holds points to a white box.
    pub open spec fn spared(self, p: usize) -> bool {
        forall|i: int|
            0 <= i < self.refs(p).len() ==> self.header(#[trigger] self.refs(p)[i]).color
                != Color::White
    }

    /// Each box is on exactly one list.
    pub open spec fn sorted_into_lists(self) -> bool {
        &&& self.chain.no_duplicates()
        &&& self.detached.no_duplicates()
        &&& self.black.no_duplicates()
        &&& forall|p: usize| #[trigger]
            self.has(p) <==> self.chain.contains(p) || self.detached.contains(p)
                || self.black.contains(p)
        &&& forall|p: usize| #[trigger]
            self.chain.contains(p) ==> !self.detached.contains(p) && !self.black.contains(p)
        &&& forall|p: usize| #[trigger] self.detached.contains(p) ==> !self.black.contains(p)
    }

    /// Each box holds one value. None of the handles in it are rooted, and each points to a box,
    /// unless the box is about to be freed.
    pub open spec fn filled(self) -> bool {
        &&& self.headers.len() == self.payloads.len()
        &&& self.headers.len() <= NULL
        &&& forall|p: usize| #![trigger self.has(p)]
            p < self.headers.len() ==> (self.has(p) <==> self.payloads[p as int] is Some)
        &&& forall|p: usize| #[trigger] self.has(p) ==> self.payload(p).flagged(false)
        &&& forall|p: usize| #[trigger]
            self.has(p) && !self.doomed(p) ==> has_all(self.headers, self.refs(p))
    }

    /// The color that a box has once it was whitened, until the boxes are darkened.
    pub open spec fn whitened(self, p: usize) -> bool {
        &&& self.header(p).color != Color::Black
        &&& self.header(p).roots > 0 ==> self.header(p).color == Color::Gray
    }

    /// No box that is in use can be missed while the boxes are darkened: a white box is only
    /// held by white boxes and by gray ones that are still to be visited.
    pub open spec fn marking(self) -> bool {
        &&& forall|p: usize| #[trigger]
            self.has(p) && self.header(p).roots > 0 ==> self.header(p).color != Color::White
        &&& forall|p: usize| #[trigger]
            self.black.contains(p) ==> self.header(p).color != Color::White && self.spared(p)
        &&& forall|p: usize| #[trigger]
            self.has(p) && self.header(p).color == Color::Black ==> self.spared(p)
        &&& forall|p: usize| #[trigger]
            self.chain.contains(p) ==> self.header(p).color != Color::White && self.spared(p)
    }

    /// A box that this pass has already passed and that has turned gray since is only there as
    /// long as the pass will still meet another one.
    pub open spec fn passing(self) -> bool {
        &&& forall|i: int|
            0 <= i < self.done ==> self.header(#[trigger] self.detached[i]).color != Color::Black
        &&& (exists|i: int| 0 <= i < self.done && #[trigger] self.gray_at(i)) ==> (exists|i: int|
            self.done <= i < self.detached.len() && #[trigger] self.gray_at(i))
    }

    pub open spec fn gray_at(self, i: int) -> bool {
        self.header(self.detached[i]).color == Color::Gray
    }

    /// What holds of the lists and the colors in each phase.
    pub open spec fn in_phase(self) -> bool {
        match self.phase {
            Phase::Idle => {
                &&& self.detached.len() == 0
                &&& self.black.len() == 0
            },
            Phase::Whiten { at } => {
                &&& self.detached.len() == 0
                &&& self.black.len() == 0
                &&& 0 <= self.done <= self.chain.len()
                &&& at == first_of(self.chain, self.done)
                &&& forall|i: int| 0 <= i < self.done ==> self.whitened(#[trigger] self.chain[i])
            },
            Phase::Blacken { head, before, at, black_head, black_tail, saw_grays } => {
                &&& linked(self.headers, self.detached, head)
                &&& linked(self.headers, self.black, black_head)
                &&& black_tail == first_of(self.black, self.black.len() - 1)
                &&& 0 <= self.done <= self.detached.len()
                &&& at == first_of(self.detached, self.done)
                &&& before == first_of(self.detached, self.done - 1)
                &&& self.marking()
                &&& !saw_grays ==> self.passing()
            },
            Phase::Sweep { head, freed } => {
                &&& linked(self.headers, self.detached, head)
                &&& self.black.len() == 0
                &&& forall|p: usize| #[trigger]
                    self.detached.contains(p) ==> self.header(p).roots == 0
                &&& forall|p: usize, i: int| #![trigger self.has(p), self.refs(p)[i]]
                    self.has(p) && !self.detached.contains(p) && 0 <= i < self.refs(p).len()
                        ==> !self.detached.contains(self.refs(p)[i])
            },
        }
    }

    /// What holds of every heap.
    pub open spec fn wf(self) -> bool {
        &&& self.filled()
        &&& self.sorted_into_lists()
        &&& linked(self.headers, self.chain, self.box_chain)
        &&& self.allocated == total(self.headers) + self.unaccounted()
        &&& self.in_phase()
    }
}

} // verus!
