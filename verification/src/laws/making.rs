//! What holds of making boxes, and of making and giving back handles.

use vstd::prelude::*;

use crate::compat::CgcCompat;
use crate::header::{CgcHeader, Color};
use crate::heap::{mutate, sweep};
use crate::heap::INITIAL_HEAP_SIZE;
use crate::model::HeapView;

verus! {

/// A box is made where there was none, gray, with one root and its size, and it comes before all
/// others on the chain. It holds what its value holds.
pub proof fn a_box_is_made_in_front<D: CgcCompat>(
    before: HeapView<D>,
    after: HeapView<D>,
    p: usize,
    refs: Seq<usize>,
    size: usize,
)
    requires
        before.wf(),
        after.wf(),
        mutate::inserted(before, after, p, refs, size),
    ensures
        p < before.headers.len() ==> before.headers[p as int] is None,
        p < after.headers.len(),
        after.headers[p as int] == Some(
            CgcHeader { size, color: Color::Gray, roots: 1, next: before.box_chain },
        ),
        after.payloads[p as int] is Some,
        after.payloads[p as int]->0.refs() == refs,
        after.payloads[p as int]->0.flagged(false),
        after.box_chain == p,
        after.chain.len() == before.chain.len() + 1,
        after.chain[0] == p,
        after.chain.skip(1) == before.chain,
        after.detached == before.detached,
        after.black == before.black,
        after.phase == before.phase,
{
    assert(after.has(p));
    assert(after.chain.skip(1) =~= before.chain);
    if p < before.headers.len() {
        assert(!before.has(p));
    }
}

/// Making a box leaves every other box its value, its size, its color and its link. Each loses as
/// many roots as there are handles to it in the new box, and no other box comes or goes.
pub proof fn making_leaves_the_others<D: CgcCompat>(
    before: HeapView<D>,
    after: HeapView<D>,
    p: usize,
    refs: Seq<usize>,
    size: usize,
    q: usize,
)
    requires
        before.wf(),
        after.wf(),
        mutate::inserted(before, after, p, refs, size),
        q != p,
    ensures
        q < before.headers.len() && before.headers[q as int] is Some <==> q < after.headers.len()
            && after.headers[q as int] is Some,
        q < before.headers.len() && before.headers[q as int] is Some ==> {
            let old_header = before.headers[q as int]->0;
            let new_header = after.headers[q as int]->0;
            &&& after.payloads[q as int]->0 == before.payloads[q as int]->0
            &&& new_header.size == old_header.size
            &&& new_header.color == old_header.color
            &&& new_header.next == old_header.next
            &&& refs.filter(|r: usize| r == q).len() <= old_header.roots ==> new_header.roots
                + refs.filter(|r: usize| r == q).len() == old_header.roots
        },
{
    assert(after.has(q) <==> before.has(q) || q == p);
    crate::laws::tables::occurrences_are_counted(refs, q);
}

/// Making a box takes its size off the heap space and adds it to what is allocated, wherever the
/// box is put. It starts a collection exactly if less than its size was left, or one was under
/// way.
pub proof fn making_uses_up_heap_space<D: CgcCompat>(
    before: HeapView<D>,
    after: HeapView<D>,
    p: usize,
    refs: Seq<usize>,
    size: usize,
)
    requires
        mutate::inserted(before, after, p, refs, size),
        size < isize::MAX,
    ensures
        after.allocated == before.allocated + size,
        before.heap_space - size >= isize::MIN ==> after.heap_space == before.heap_space - size,
        before.heap_space - size < isize::MIN ==> after.heap_space == before.heap_space - size + (
        usize::MAX + 1),
        after.collecting <==> before.collecting || before.heap_space < size,
{
}

/// The heap space is what was left at first less the sizes of all boxes that were made since, as
/// long as nothing else has settled it. As soon as these exceed what was left, a collection has
/// been started, unless it has ended since.
pub proof fn heap_space_is_used_up<D: CgcCompat>(
    heaps: Seq<HeapView<D>>,
    places: Seq<usize>,
    refs: Seq<Seq<usize>>,
    sizes: Seq<usize>,
)
    requires
        heaps.len() == sizes.len() + 1,
        places.len() == sizes.len(),
        refs.len() == sizes.len(),
        forall|i: int|
            0 <= i < sizes.len() ==> #[trigger] sizes[i] < isize::MAX && mutate::inserted(
                heaps[i],
                heaps[i + 1],
                places[i],
                refs[i],
                sizes[i],
            ),
        heaps[0].heap_space - sizes.fold_left(0int, |sum: int, size: usize| sum + size)
            >= isize::MIN,
    ensures
        heaps.last().heap_space == heaps[0].heap_space - sizes.fold_left(
            0int,
            |sum: int, size: usize| sum + size,
        ),
        heaps.last().allocated == heaps[0].allocated + sizes.fold_left(
            0int,
            |sum: int, size: usize| sum + size,
        ),
        heaps[0].collecting ==> heaps.last().collecting,
        sizes.fold_left(0int, |sum: int, size: usize| sum + size) > heaps[0].heap_space
            && heaps[0].heap_space >= 0 ==> heaps.last().collecting,
        !heaps[0].collecting && sizes.fold_left(0int, |sum: int, size: usize| sum + size)
            <= heaps[0].heap_space ==> !heaps.last().collecting,
    decreases sizes.len(),
{
    let sum = |sum: int, size: usize| sum + size;
    if sizes.len() > 0 {
        let n = sizes.len() - 1;
        let rest = sizes.drop_last();
        assert(sizes.fold_left(0int, sum) == rest.fold_left(0int, sum) + sizes[n]);
        assert forall|i: int| 0 <= i < rest.len() implies #[trigger] rest[i] < isize::MAX
            && mutate::inserted(
            heaps.drop_last()[i],
            heaps.drop_last()[i + 1],
            places.drop_last()[i],
            refs.drop_last()[i],
            rest[i],
        ) by {
            assert(sizes[i] < isize::MAX);
        }
        heap_space_is_used_up(
            heaps.drop_last(),
            places.drop_last(),
            refs.drop_last(),
            rest,
        );
        assert(sizes[n] < isize::MAX);
        assert(heaps[n + 1] == heaps.last());
        assert(heaps.drop_last().last() == heaps[n]);
    }
}

/// What is granted after a collection is the greater of the scaled amount and what a new heap is
/// granted: it is at least both, and one of them.
pub proof fn the_greater_is_granted(scaled: isize)
    ensures
        INITIAL_HEAP_SIZE == 1024,
        sweep::heap_space_after(scaled) >= scaled,
        sweep::heap_space_after(scaled) >= 1024,
        sweep::heap_space_after(scaled) == scaled || sweep::heap_space_after(scaled) == 1024,
{
}

/// More is granted after a collection for a greater amount, and never less.
pub proof fn granting_follows_the_amount(less: isize, more: isize)
    requires
        less <= more,
    ensures
        sweep::heap_space_after(less) <= sweep::heap_space_after(more),
        1024 <= less < more ==> sweep::heap_space_after(more) - sweep::heap_space_after(less)
            == more - less,
        more <= 1024 ==> sweep::heap_space_after(less) == sweep::heap_space_after(more),
{
}

/// Rooting a box changes its count of roots and its color, and nothing else of the heap.
pub proof fn rooting_changes_one_header<D: CgcCompat>(
    before: HeapView<D>,
    after: HeapView<D>,
    p: usize,
    i: int,
)
    requires
        p < before.headers.len(),
        before.headers[p as int] is Some,
        0 <= i < before.headers.len(),
        mutate::rooted_once(before, after, p),
    ensures
        after.headers.len() == before.headers.len(),
        after.headers[p as int] is Some,
        ({
            let old_header = before.headers[p as int]->0;
            let new_header = after.headers[p as int]->0;
            &&& old_header.roots < usize::MAX ==> new_header.roots == old_header.roots + 1
            &&& new_header.color == (if old_header.roots == 0 {
                Color::Gray
            } else {
                old_header.color
            })
            &&& new_header.size == old_header.size
            &&& new_header.next == old_header.next
        }),
        i != p ==> after.headers[i] == before.headers[i],
        nothing_else_changed(before, after),
{
}

/// Unrooting a box changes its count of roots, and nothing else of the heap.
pub proof fn unrooting_changes_one_header<D: CgcCompat>(
    before: HeapView<D>,
    after: HeapView<D>,
    p: usize,
    i: int,
)
    requires
        p < before.headers.len(),
        before.headers[p as int] is Some,
        before.headers[p as int]->0.roots > 0,
        0 <= i < before.headers.len(),
        mutate::unrooted_once(before, after, p),
    ensures
        after.headers.len() == before.headers.len(),
        after.headers[p as int] is Some,
        ({
            let old_header = before.headers[p as int]->0;
            let new_header = after.headers[p as int]->0;
            &&& new_header.roots + 1 == old_header.roots
            &&& new_header.color == old_header.color
            &&& new_header.size == old_header.size
            &&& new_header.next == old_header.next
        }),
        i != p ==> after.headers[i] == before.headers[i],
        nothing_else_changed(before, after),
{
}

/// The two heaps agree in all but their headers.
pub open spec fn nothing_else_changed<D: CgcCompat>(a: HeapView<D>, b: HeapView<D>) -> bool {
    &&& b.payloads == a.payloads
    &&& b.box_chain == a.box_chain
    &&& b.chain == a.chain
    &&& b.detached == a.detached
    &&& b.black == a.black
    &&& b.done == a.done
    &&& b.allocated == a.allocated
    &&& b.heap_space == a.heap_space
    &&& b.collecting == a.collecting
    &&& b.phase == a.phase
}

} // verus!
