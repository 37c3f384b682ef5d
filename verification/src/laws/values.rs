//! What holds of handles and of the values that are put in boxes.

use vstd::prelude::*;

use crate::cgc;
use crate::cgc::{Cgc, CgcBox};
use crate::compat::CgcCompat;
use crate::heap::mutate;
use crate::holds::Holds;
use crate::laws::tables;
use crate::model::HeapView;

verus! {

/// A handle holds exactly one pointer, that of its own box, and it says of itself whether it is
/// rooted. Rooting and unrooting it changes nothing else of it.
pub proof fn a_handle_holds_its_own_box<T: Send + Sync>(handle: Cgc<T>, rooted: bool)
    ensures
        handle.refs().len() == 1,
        handle.refs()[0] == handle.ptr(),
        handle.flagged(rooted) <==> handle.rooted() == rooted,
        handle.set_rooted(rooted).ptr() == handle.ptr(),
        handle.set_rooted(rooted).rooted() == rooted,
{
    handle.set_rooted_keeps_ptr(rooted);
}

/// A number holds no handles, and neither rooting nor unrooting changes it. So a box with a
/// number in it holds that number.
pub proof fn a_number_is_left_as_it_is(number: i32, rooted: bool)
    ensures
        number.set_rooted(rooted) == number,
        number.refs().len() == 0,
        number.flagged(rooted),
{
}

/// What there may be holds what is there, and rooting and unrooting it does so to what is there.
pub proof fn an_option_holds_what_is_there<T: CgcCompat>(value: T, rooted: bool)
    ensures
        Some(value).refs() == value.refs(),
        Some(value).flagged(rooted) == value.flagged(rooted),
        Some(value).set_rooted(rooted) == Some(value.set_rooted(rooted)),
        None::<T>.refs().len() == 0,
        None::<T>.flagged(rooted),
        None::<T>.set_rooted(rooted) == None::<T>,
{
}

/// A value stands for itself.
pub proof fn a_value_stands_for_itself<T: CgcCompat>(value: T)
    ensures
        <T as Holds<T>>::project(&value) == Some(value),
{
}

/// A box takes the bytes of its header and its value as they lie in memory.
pub proof fn a_box_takes_its_bytes<T>()
    ensures
        cgc::box_size::<T>() == vstd::layout::size_of::<CgcBox<T>>(),
{
}

/// A handle points into a heap exactly if there is a box for it, with a value of its type.
pub proof fn a_handle_points_to_a_value<T: CgcCompat, D: Holds<T>>(
    handle: Cgc<T>,
    heap: HeapView<D>,
)
    requires
        heap.wf(),
    ensures
        handle.points_into(heap) <==> handle.ptr() < heap.payloads.len()
            && heap.payloads[handle.ptr() as int] is Some
            && heap.payloads[handle.ptr() as int]->0.project() is Some,
{
    assert(heap.has(handle.ptr()) ==> handle.ptr() < heap.headers.len());
    if handle.ptr() < heap.headers.len() {
        assert(heap.has(handle.ptr()) <==> heap.payloads[handle.ptr() as int] is Some);
    }
}

/// A value can be put in a box exactly if all handles in it are rooted, each points to a box, and
/// no box counts fewer roots than there are handles to it in the value.
pub proof fn what_can_be_put_in_a_box<D: CgcCompat, T: CgcCompat>(heap: HeapView<D>, value: T)
    ensures
        mutate::counted(heap, value) <==> {
            &&& value.flagged(true)
            &&& forall|p: usize| #[trigger]
                value.refs().contains(p) ==> p < heap.headers.len() && heap.headers[p as int] is Some
                    && tables::times(value.refs(), p)
                    <= heap.headers[p as int]->0.roots
        },
{
    let refs = value.refs();
    tables::all_are_there(heap.headers, refs);
    if mutate::counted(heap, value) {
        assert forall|p: usize| #[trigger] refs.contains(p) implies p < heap.headers.len()
            && heap.headers[p as int] is Some && tables::times(refs, p)
            <= heap.headers[p as int]->0.roots by {
            assert(heap.has(p));
            tables::occurrences_are_counted(refs, p);
        }
    }
    if value.flagged(true) && forall|p: usize| #[trigger]
        refs.contains(p) ==> p < heap.headers.len() && heap.headers[p as int] is Some
            && tables::times(refs, p) <= heap.headers[p as int]->0.roots {
        assert forall|p: usize| #[trigger] heap.has(p) implies crate::model::occurrences(refs, p)
            <= heap.header(p).roots by {
            tables::occurrences_are_counted(refs, p);
            if !refs.contains(p) {
                not_there(refs, p);
            }
        }
    }
}

proof fn not_there(refs: Seq<usize>, p: usize)
    requires
        !refs.contains(p),
    ensures
        crate::model::occurrences(refs, p) == 0,
    decreases refs.len(),
{
    if refs.len() > 0 {
        assert(refs[refs.len() - 1] != p);
        assert forall|i: int| 0 <= i < refs.drop_last().len() implies refs.drop_last()[i] != p by {
            assert(refs[i] != p);
        }
        not_there(refs.drop_last(), p);
    }
}

/// A value without handles can always be put in a box.
pub proof fn a_number_can_be_put_in_a_box<D: CgcCompat>(heap: HeapView<D>, number: i32)
    ensures
        mutate::counted(heap, number),
{
}

/// A rooted handle can be put in a box, as long as its box counts it.
pub proof fn a_rooted_handle_can_be_put_in_a_box<D: CgcCompat, T: Send + Sync>(
    heap: HeapView<D>,
    handle: Cgc<T>,
)
    requires
        handle.rooted(),
        handle.ptr() < heap.headers.len(),
        heap.headers[handle.ptr() as int] is Some,
        heap.headers[handle.ptr() as int]->0.roots > 0,
    ensures
        mutate::counted(heap, handle),
        mutate::counted(heap, Some(handle)),
{
    let refs = handle.refs();
    assert(refs =~= seq![handle.ptr()]);
    assert forall|p: usize| #[trigger] heap.has(p) implies crate::model::occurrences(refs, p)
        <= heap.header(p).roots by {
        reveal_with_fuel(crate::model::occurrences, 2);
        assert(refs.drop_last() =~= Seq::<usize>::empty());
    }
    assert(Some(handle).refs() == refs);
}

/// Putting a handle in a box takes its root away from the box that it points to, and the new box
/// holds that box from then on.
pub proof fn a_box_takes_over_the_root<D: CgcCompat, T: Send + Sync>(
    before: HeapView<D>,
    after: HeapView<D>,
    made: usize,
    handle: Cgc<T>,
    size: usize,
)
    requires
        after.wf(),
        mutate::counted(before, handle) || mutate::counted(before, Some(handle)),
        mutate::inserted(before, after, made, handle.refs(), size) || mutate::inserted(
            before,
            after,
            made,
            Some(handle).refs(),
            size,
        ),
    ensures
        made != handle.ptr(),
        before.headers[handle.ptr() as int] is Some,
        after.headers[handle.ptr() as int] is Some,
        after.headers[handle.ptr() as int]->0.roots + 1
            == before.headers[handle.ptr() as int]->0.roots,
        after.payloads[made as int] is Some,
        after.payloads[made as int]->0.refs().contains(handle.ptr()),
{
    let refs = handle.refs();
    let p = handle.ptr();
    assert(refs =~= seq![p]);
    assert(Some(handle).refs() == refs);
    assert(crate::model::has(before.headers, refs[0]));
    assert(before.has(p));
    assert(crate::model::occurrences(refs, p) == 1) by {
        reveal_with_fuel(crate::model::occurrences, 2);
        assert(refs.drop_last() =~= Seq::<usize>::empty());
    }
    assert(after.has(p));
    assert(after.has(made));
    assert(after.refs(made) == refs);
    assert(refs[0] == p);
    assert(refs.contains(p));
}

} // verus!
