use std::marker::PhantomData;

use vstd::prelude::*;

use crate::compat::CgcCompat;
use crate::header::CgcHeader;
use crate::heap::{mutate, Heap};
use crate::holds::Holds;
use crate::model;
use crate::model::{HeadersView, HeapView};
use crate::table::Headers;

verus! {

/// A box as it lies in memory: the bookkeeping, and then the value.
pub struct CgcBox<T> {
    pub header: CgcHeader,
    pub data: T,
}

/// How many bytes a box with a value of type `T` takes.
pub open spec fn box_size<T>() -> nat {
    vstd::layout::size_of::<CgcBox<T>>()
}

/// A handle to a box on a heap.
///
/// A rooted handle keeps its box from being freed. The handles inside of a box are not rooted:
/// they keep their boxes from being freed as long as that box itself is in use. A rooted handle
/// has to be given back with [`Cgc::drop`].
pub struct Cgc<T> {
    ptr: usize,
    /// Whether the box counts the handle as a root: 1 if it does, and 0 if not.
    flag: u8,
    marker: PhantomData<T>,
}

impl<T> Cgc<T> {
    /// The box that the handle points to.
    pub closed spec fn ptr(&self) -> usize {
        self.ptr
    }

    /// The box counts the handle as a root.
    pub closed spec fn rooted(&self) -> bool {
        self.flag != 0
    }
}

impl<T: CgcCompat> Cgc<T> {
    /// There is a box for the handle on the heap, and it holds a value of type `T`.
    pub open spec fn points_into<D: Holds<T>>(&self, heap: HeapView<D>) -> bool {
        heap.has(self.ptr()) && heap.payload(self.ptr()).project() is Some
    }

    /// Makes a box with the value in it, and a rooted handle to it. The handles in the value have
    /// to be rooted; once it is in the box they no longer are.
    pub fn new<D: Holds<T>>(heap: &mut Heap<D>, data: T) -> (handle: Cgc<T>)
        requires
            old(heap).wf(),
            mutate::counted(old(heap)@, data),
            box_size::<T>() < isize::MAX,
            old(heap)@.allocated + box_size::<T>() <= usize::MAX,
        ensures
            final(heap).wf(),
            handle.rooted(),
            mutate::inserted(
                old(heap)@,
                final(heap)@,
                handle.ptr(),
                data.refs(),
                box_size::<T>() as usize,
            ),
            handle.points_into(final(heap)@),
            final(heap)@.payload(handle.ptr()).project() == Some(data.set_rooted(false)),
            final(heap)@.live(handle.ptr()),
    {
        let size: usize = std::mem::size_of::<CgcBox<T>>();
        let ptr: usize = heap.insert(CgcBox { header: CgcHeader::new(size), data });
        proof {
            crate::lemmas::reaches_self(heap@.payloads, ptr);
            assert(model::has(heap@.headers, ptr));
        }
        Cgc { ptr, flag: 1, marker: PhantomData }
    }

    /// The place of the box on the heap.
    pub fn address(&self) -> (p: usize)
        ensures
            p == self.ptr(),
    {
        self.ptr
    }

    /// The header of the box.
    pub fn header<D: CgcCompat>(&self, heap: &Heap<D>) -> (header: CgcHeader)
        requires
            heap.wf(),
            heap@.has(self.ptr()),
        ensures
            header == heap@.header(self.ptr()),
    {
        heap.header(self.ptr)
    }

    /// The value in the box.
    pub fn deref<'a, D: Holds<T>>(&self, heap: &'a Heap<D>) -> (value: &'a T)
        requires
            heap.wf(),
            self.points_into(heap@),
        ensures
            Some(*value) == heap@.payload(self.ptr()).project(),
    {
        match heap.data(self.ptr).get() {
            Some(value) => value,
            None => vstd::pervasive::unreached(),
        }
    }

    /// Makes another handle to the box that is not rooted: it does not keep the box from being
    /// freed. A handle that lies in a box is cloned by way of it, as the heap cannot be changed
    /// while the box is looked into.
    pub fn alias(&self) -> (handle: Cgc<T>)
        ensures
            handle.ptr() == self.ptr(),
            !handle.rooted(),
    {
        Cgc { ptr: self.ptr, flag: 0, marker: PhantomData }
    }

    /// Makes another handle to the box, which is in use, and roots it.
    pub fn clone<D: CgcCompat>(&self, heap: &mut Heap<D>) -> (handle: Cgc<T>)
        requires
            old(heap).wf(),
            old(heap)@.has(self.ptr()),
            old(heap)@.live(self.ptr()),
            old(heap)@.header(self.ptr()).roots < usize::MAX,
        ensures
            final(heap).wf(),
            handle.ptr() == self.ptr(),
            handle.rooted(),
            mutate::rooted_once(old(heap)@, final(heap)@, self.ptr()),
    {
        heap.root_box(self.ptr);
        Cgc { ptr: self.ptr, flag: 1, marker: PhantomData }
    }

    /// Gives the handle back. If it is rooted, the box has one root less.
    pub fn drop<D: CgcCompat>(self, heap: &mut Heap<D>)
        requires
            old(heap).wf(),
            self.rooted() ==> old(heap)@.has(self.ptr()) && old(heap)@.header(self.ptr()).roots
                > 0,
        ensures
            final(heap).wf(),
            !self.rooted() ==> final(heap)@ == old(heap)@,
            self.rooted() ==> mutate::unrooted_once(old(heap)@, final(heap)@, self.ptr()),
    {
        if self.flag != 0 {
            heap.unroot_box(self.ptr);
        }
    }
}

impl<T: Send + Sync> Cgc<T> {
    /// Rooting or unrooting a handle leaves it pointing to the same box.
    pub proof fn set_rooted_keeps_ptr(self, rooted: bool)
        ensures
            self.set_rooted(rooted).ptr() == self.ptr(),
            self.set_rooted(rooted).rooted() == rooted,
    {
    }
}

/// What rooting, unrooting and darkening do with a single pointer.
proof fn one_ref(p: usize)
    ensures
        forall|slots: Seq<Option<CgcHeader>>| #[trigger]
            model::root_all(slots, seq![p]) == model::set_header(
                slots,
                p,
                model::header_at(slots, p).rooted(),
            ),
        forall|slots: Seq<Option<CgcHeader>>| #[trigger]
            model::unroot_all(slots, seq![p]) == model::set_header(
                slots,
                p,
                model::header_at(slots, p).unrooted(),
            ),
        forall|table: HeadersView| #[trigger]
            model::darken_all(table, seq![p]) == model::darken_one(table, p),
{
    reveal_with_fuel(model::root_all, 2);
    reveal_with_fuel(model::unroot_all, 2);
    reveal_with_fuel(model::darken_all, 2);
    assert(seq![p].drop_last() =~= Seq::<usize>::empty());
}

impl<T: Send + Sync> CgcCompat for Cgc<T> {
    open spec fn refs(&self) -> Seq<usize> {
        seq![self.ptr()]
    }

    open spec fn flagged(&self, rooted: bool) -> bool {
        self.rooted() == rooted
    }

    closed spec fn set_rooted(self, rooted: bool) -> Cgc<T> {
        Cgc { flag: if rooted { 1 } else { 0 }, ..self }
    }

    fn root(&mut self, table: &mut Headers) {
        proof {
            one_ref(self.ptr);
            assert(model::has(table@.slots, self.refs()[0]));
        }
        table.root(self.ptr);
        self.flag = 1;
    }

    fn unroot(&mut self, table: &mut Headers) {
        proof {
            one_ref(self.ptr);
            assert(model::has(table@.slots, self.refs()[0]));
        }
        table.unroot(self.ptr);
        self.flag = 0;
    }

    fn darken(&self, table: &mut Headers) {
        proof {
            one_ref(self.ptr);
            assert(model::has(table@.slots, self.refs()[0]));
        }
        table.darken(self.ptr);
    }
}

} // verus!
