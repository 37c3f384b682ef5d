//! What holds of headers and of tables of them.

use vstd::prelude::*;

use crate::header::{CgcHeader, Color, NULL};
use crate::model;
use crate::model::HeadersView;

verus! {

/// Rooting a box counts one root more, and makes it gray if it had none. Unrooting it counts one
/// less and leaves its color. The counts wrap around, and the rest of the header stays.
pub proof fn rooting_counts(header: CgcHeader)
    ensures
        header.roots < usize::MAX ==> header.rooted().roots == header.roots + 1,
        header.roots == usize::MAX ==> header.rooted().roots == 0,
        header.roots == 0 ==> header.rooted().color == Color::Gray,
        header.roots > 0 ==> header.rooted().color == header.color,
        header.rooted().size == header.size,
        header.rooted().next == header.next,
        header.roots > 0 ==> header.unrooted().roots == header.roots - 1,
        header.roots == 0 ==> header.unrooted().roots == usize::MAX,
        header.unrooted().color == header.color,
        header.unrooted().size == header.size,
        header.unrooted().next == header.next,
{
}

/// No box is at the pointer that ends a list.
pub proof fn the_end_is_no_box(slots: Seq<Option<CgcHeader>>)
    requires
        slots.len() <= usize::MAX,
    ensures
        NULL == usize::MAX,
        !model::has(slots, NULL),
{
}

/// There is a box where there is a header, and it has that header.
pub proof fn a_box_is_where_its_header_is(slots: Seq<Option<CgcHeader>>, p: usize)
    ensures
        model::has(slots, p) <==> exists|header: CgcHeader|
            p < slots.len() && slots[p as int] == Some(header),
        model::has(slots, p) ==> slots[p as int] == Some(model::header_at(slots, p)),
{
    if model::has(slots, p) {
        assert(slots[p as int] == Some(slots[p as int]->0));
    }
}

/// All of the pointers are those of boxes exactly if each of them is.
pub proof fn all_are_there(slots: Seq<Option<CgcHeader>>, refs: Seq<usize>)
    ensures
        model::has_all(slots, refs) <==> forall|p: usize| #[trigger]
            refs.contains(p) ==> p < slots.len() && slots[p as int] is Some,
{
    if model::has_all(slots, refs) {
        assert forall|p: usize| #[trigger] refs.contains(p) implies p < slots.len()
            && slots[p as int] is Some by {
            let i = choose|i: int| 0 <= i < refs.len() && refs[i] == p;
            assert(model::has(slots, refs[i]));
        }
    }
    if forall|p: usize| #[trigger]
        refs.contains(p) ==> p < slots.len() && slots[p as int] is Some {
        assert forall|i: int| 0 <= i < refs.len() implies model::has(slots, #[trigger] refs[i]) by {
            assert(refs.contains(refs[i]));
        }
    }
}

/// Replacing a header leaves all the others, and adds no pointer.
pub proof fn replacing_leaves_the_others(
    slots: Seq<Option<CgcHeader>>,
    p: usize,
    header: CgcHeader,
    i: int,
)
    requires
        p < slots.len(),
        0 <= i < slots.len(),
    ensures
        model::set_header(slots, p, header).len() == slots.len(),
        model::set_header(slots, p, header)[p as int] == Some(header),
        i != p ==> model::set_header(slots, p, header)[i] == slots[i],
{
}

/// Rooting no pointers changes nothing, and rooting one more roots that one last.
pub proof fn rooting_goes_on(slots: Seq<Option<CgcHeader>>, refs: Seq<usize>, p: usize)
    requires
        p < slots.len(),
        model::has_all(slots, refs),
        slots[p as int] is Some,
    ensures
        model::root_all(slots, Seq::empty()) == slots,
        ({
            let before = model::root_all(slots, refs);
            let after = model::root_all(slots, refs.push(p));
            let header = before[p as int]->0;
            &&& before.len() == slots.len()
            &&& before[p as int] is Some
            &&& after.len() == slots.len()
            &&& after[p as int] == Some(
                CgcHeader {
                    size: header.size,
                    color: if header.roots == 0 {
                        Color::Gray
                    } else {
                        header.color
                    },
                    roots: if header.roots == usize::MAX {
                        0
                    } else {
                        (header.roots + 1) as usize
                    },
                    next: header.next,
                },
            )
            &&& forall|i: int| 0 <= i < slots.len() && i != p ==> #[trigger] after[i] == before[i]
        }),
{
    assert(refs.push(p).drop_last() =~= refs);
    rooting_keeps_boxes(slots, refs, p);
}

proof fn rooting_keeps_boxes(slots: Seq<Option<CgcHeader>>, refs: Seq<usize>, p: usize)
    requires
        model::has_all(slots, refs),
        p < slots.len(),
        slots[p as int] is Some,
    ensures
        model::root_all(slots, refs).len() == slots.len(),
        model::root_all(slots, refs)[p as int] is Some,
    decreases refs.len(),
{
    if refs.len() > 0 {
        let rest = refs.drop_last();
        assert forall|i: int| 0 <= i < rest.len() implies model::has(slots, #[trigger] rest[i]) by {
            assert(model::has(slots, refs[i]));
        }
        assert(model::has(slots, refs[refs.len() - 1]));
        rooting_keeps_boxes(slots, rest, p);
    }
}

/// Unrooting no pointers changes nothing, and unrooting one more unroots that one last.
pub proof fn unrooting_goes_on(slots: Seq<Option<CgcHeader>>, refs: Seq<usize>, p: usize)
    requires
        p < slots.len(),
        model::has_all(slots, refs),
        slots[p as int] is Some,
    ensures
        model::unroot_all(slots, Seq::empty()) == slots,
        ({
            let before = model::unroot_all(slots, refs);
            let after = model::unroot_all(slots, refs.push(p));
            let header = before[p as int]->0;
            &&& before.len() == slots.len()
            &&& before[p as int] is Some
            &&& after.len() == slots.len()
            &&& after[p as int] == Some(
                CgcHeader {
                    size: header.size,
                    color: header.color,
                    roots: if header.roots == 0 {
                        usize::MAX
                    } else {
                        (header.roots - 1) as usize
                    },
                    next: header.next,
                },
            )
            &&& forall|i: int| 0 <= i < slots.len() && i != p ==> #[trigger] after[i] == before[i]
        }),
{
    assert(refs.push(p).drop_last() =~= refs);
    unrooting_keeps_boxes(slots, refs, p);
}

proof fn unrooting_keeps_boxes(slots: Seq<Option<CgcHeader>>, refs: Seq<usize>, p: usize)
    requires
        model::has_all(slots, refs),
        p < slots.len(),
        slots[p as int] is Some,
    ensures
        model::unroot_all(slots, refs).len() == slots.len(),
        model::unroot_all(slots, refs)[p as int] is Some,
    decreases refs.len(),
{
    if refs.len() > 0 {
        let rest = refs.drop_last();
        assert forall|i: int| 0 <= i < rest.len() implies model::has(slots, #[trigger] rest[i]) by {
            assert(model::has(slots, refs[i]));
        }
        assert(model::has(slots, refs[refs.len() - 1]));
        unrooting_keeps_boxes(slots, rest, p);
    }
}

/// Darkening a white box makes it black and notes it last. Darkening any other box changes
/// nothing.
pub proof fn darkening_notes_white_boxes(table: HeadersView, p: usize)
    requires
        p < table.slots.len(),
        table.slots[p as int] is Some,
    ensures
        table.slots[p as int]->0.color != Color::White ==> model::darken_one(table, p) == table,
        table.slots[p as int]->0.color == Color::White ==> {
            let after = model::darken_one(table, p);
            let header = table.slots[p as int]->0;
            &&& after.pending.len() == table.pending.len() + 1
            &&& after.pending.last() == p
            &&& after.pending.drop_last() == table.pending
            &&& after.slots.len() == table.slots.len()
            &&& after.slots[p as int] == Some(
                CgcHeader {
                    size: header.size,
                    color: Color::Black,
                    roots: header.roots,
                    next: header.next,
                },
            )
            &&& forall|i: int|
                0 <= i < table.slots.len() && i != p ==> #[trigger] after.slots[i]
                    == table.slots[i]
        },
{
    assert(table.pending.push(p).drop_last() =~= table.pending);
}

/// Darkening no pointers changes nothing, and darkening one more darkens that one last.
pub proof fn darkening_goes_on(table: HeadersView, refs: Seq<usize>, p: usize)
    ensures
        model::darken_all(table, Seq::empty()) == table,
        model::darken_all(table, refs.push(p)) == model::darken_one(
            model::darken_all(table, refs),
            p,
        ),
{
    assert(refs.push(p).drop_last() =~= refs);
}

/// What all boxes take grows by what one more box takes.
pub proof fn bytes_are_summed_up(slots: Seq<Option<CgcHeader>>, header: CgcHeader)
    ensures
        model::total(Seq::empty()) == 0,
        model::total(slots.push(None)) == model::total(slots),
        model::total(slots.push(Some(header))) == model::total(slots) + header.size,
{
    assert(slots.push(None).drop_last() =~= slots);
    assert(slots.push(Some(header)).drop_last() =~= slots);
}

/// How many of the pointers are equal to `p`.
pub open spec fn times(refs: Seq<usize>, p: usize) -> nat {
    refs.filter(|q: usize| q == p).len()
}

/// How often a pointer occurs is how many of the pointers are equal to it.
pub proof fn occurrences_are_counted(refs: Seq<usize>, p: usize)
    ensures
        model::occurrences(refs, p) == refs.filter(|q: usize| q == p).len(),
        model::occurrences(refs, p) == times(refs, p),
    decreases refs.len(),
{
    reveal(Seq::filter);
    if refs.len() > 0 {
        occurrences_are_counted(refs.drop_last(), p);
    }
}

/// How many boxes are white grows by one with each white box.
pub proof fn whites_are_counted(slots: Seq<Option<CgcHeader>>, header: CgcHeader)
    ensures
        model::whites(Seq::empty()) == 0,
        model::whites(slots.push(None)) == model::whites(slots),
        model::whites(slots.push(Some(header))) == model::whites(slots) + (if header.color
            == Color::White {
            1int
        } else {
            0
        }),
{
    assert(slots.push(None).drop_last() =~= slots);
    assert(slots.push(Some(header)).drop_last() =~= slots);
}

} // verus!
