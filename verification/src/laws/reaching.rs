//! What holds of the boxes that are in use.

use vstd::prelude::*;

use crate::compat::CgcCompat;
use crate::header::{CgcHeader, Color};
use crate::laws;
use crate::lemmas;
use crate::model;
use crate::model::HeapView;

verus! {

/// The box at `p` has a value with a handle to the box at `q`.
pub open spec fn holds<D: CgcCompat>(payloads: Seq<Option<D>>, p: usize, q: usize) -> bool {
    p < payloads.len() && payloads[p as int] is Some && payloads[p as int]->0.refs().contains(q)
}

/// The pointers in the set include all that the boxes in it hold.
pub open spec fn closed<D: CgcCompat>(payloads: Seq<Option<D>>, set: Set<usize>) -> bool {
    forall|p: usize, q: usize| #[trigger]
        holds(payloads, p, q) && set.contains(p) ==> set.contains(q)
}

/// The pointers in the set include all white boxes that the box at `from` or a box in it holds.
pub open spec fn closed_over_white<D: CgcCompat>(
    slots: Seq<Option<CgcHeader>>,
    payloads: Seq<Option<D>>,
    from: usize,
    set: Set<usize>,
) -> bool {
    forall|p: usize, q: usize| #[trigger]
        holds(payloads, p, q) && (p == from || set.contains(p)) && white(slots, q) ==> set.contains(
            q,
        )
}

/// A box reaches itself, and what is held by what it reaches.
pub proof fn a_box_reaches_what_is_held<D: CgcCompat>(
    payloads: Seq<Option<D>>,
    from: usize,
    p: usize,
    q: usize,
)
    ensures
        model::reaches(payloads, from, from),
        model::reaches(payloads, from, p) && holds(payloads, p, q) ==> model::reaches(
            payloads,
            from,
            q,
        ),
{
    lemmas::reaches_self(payloads, from);
    if model::reaches(payloads, from, p) && holds(payloads, p, q) {
        lemmas::reaches_next(payloads, from, p, q);
    }
}

/// A box reaches nothing else: what it reaches is in every set that it is in, and that includes
/// all that the boxes in it hold.
pub proof fn a_box_reaches_nothing_else<D: CgcCompat>(
    payloads: Seq<Option<D>>,
    from: usize,
    to: usize,
    set: Set<usize>,
)
    requires
        model::reaches(payloads, from, to),
        closed(payloads, set),
        set.contains(from),
    ensures
        set.contains(to),
{
    let path = choose|path: Seq<usize>| #[trigger]
        model::is_path(payloads, path) && path.first() == from && path.last() == to;
    path_stays_inside(payloads, path, set, path.len() - 1);
}

proof fn path_stays_inside<D: CgcCompat>(
    payloads: Seq<Option<D>>,
    path: Seq<usize>,
    set: Set<usize>,
    i: int,
)
    requires
        model::is_path(payloads, path),
        closed(payloads, set),
        set.contains(path.first()),
        0 <= i < path.len(),
    ensures
        set.contains(path[i]),
    decreases i,
{
    if i > 0 {
        path_stays_inside(payloads, path, set, i - 1);
        assert(model::refs_at(payloads, path[i - 1]).contains(path[i - 1 + 1]));
        assert(holds(payloads, path[i - 1], path[i]));
    }
}

/// A box with a root is in use, and so is what a box in use holds.
pub proof fn in_use_from_the_roots<D: CgcCompat>(heap: HeapView<D>, p: usize, q: usize)
    ensures
        p < heap.headers.len() && heap.headers[p as int] is Some && heap.headers[p as int]->0.roots
            > 0 ==> heap.live(p),
        heap.live(p) && holds(heap.payloads, p, q) ==> heap.live(q),
{
    if p < heap.headers.len() && heap.headers[p as int] is Some && heap.headers[p as int]->0.roots
        > 0 {
        laws::rooted_is_live(heap, p);
    }
    if heap.live(p) && holds(heap.payloads, p, q) {
        laws::held_is_live(heap, p, q);
    }
}

/// Nothing else is in use: what is in use is in every set that all boxes with a root are in, and
/// that includes all that the boxes in it hold.
pub proof fn nothing_else_is_in_use<D: CgcCompat>(heap: HeapView<D>, set: Set<usize>, p: usize)
    requires
        closed(heap.payloads, set),
        forall|r: usize|
            r < heap.headers.len() && #[trigger] heap.headers[r as int] is Some
                && heap.headers[r as int]->0.roots > 0 ==> set.contains(r),
        heap.live(p),
    ensures
        set.contains(p),
{
    let root = choose|root: usize| #[trigger]
        model::has(heap.headers, root) && model::header_at(heap.headers, root).roots > 0
            && model::reaches(heap.payloads, root, p);
    assert(heap.headers[root as int] is Some);
    a_box_reaches_nothing_else(heap.payloads, root, p, set);
}

/// The box at `q` is white.
pub open spec fn white(slots: Seq<Option<CgcHeader>>, q: usize) -> bool {
    q < slots.len() && slots[q as int] is Some && slots[q as int]->0.color == Color::White
}

/// What a box reaches over white boxes begins with the white boxes that it holds, and goes on
/// with the white boxes that those hold.
pub proof fn white_boxes_are_reached<D: CgcCompat>(
    slots: Seq<Option<CgcHeader>>,
    payloads: Seq<Option<D>>,
    from: usize,
    p: usize,
    q: usize,
)
    requires
        white(slots, q),
        holds(payloads, p, q),
        p == from || model::reaches_white(slots, payloads, from, p),
    ensures
        model::reaches_white(slots, payloads, from, q),
{
    let path = if p == from {
        seq![from]
    } else {
        choose|path: Seq<usize>| #[trigger]
            model::is_path(payloads, path) && path.len() > 1 && path.first() == from
                && path.last() == p && model::all_white_after(slots, path)
    };
    lemmas::path_push(payloads, path, q);
    let longer = path.push(q);
    assert(longer.first() == from && longer.last() == q);
    assert forall|i: int| 1 <= i < longer.len() implies model::has(slots, #[trigger] longer[i])
        && model::header_at(slots, longer[i]).color == Color::White by {
        if i < path.len() {
            assert(model::has(slots, path[i]));
        }
    }
    assert(model::all_white_after(slots, longer));
}

/// A box reaches nothing else over white boxes.
pub proof fn only_white_boxes_are_reached<D: CgcCompat>(
    slots: Seq<Option<CgcHeader>>,
    payloads: Seq<Option<D>>,
    from: usize,
    to: usize,
    set: Set<usize>,
)
    requires
        model::reaches_white(slots, payloads, from, to),
        closed_over_white(slots, payloads, from, set),
    ensures
        white(slots, to),
        set.contains(to),
{
    let path = choose|path: Seq<usize>| #[trigger]
        model::is_path(payloads, path) && path.len() > 1 && path.first() == from && path.last()
            == to && model::all_white_after(slots, path);
    assert(model::has(slots, path[path.len() - 1]));
    white_path_stays_inside(slots, payloads, path, set, path.len() - 1);
}

proof fn white_path_stays_inside<D: CgcCompat>(
    slots: Seq<Option<CgcHeader>>,
    payloads: Seq<Option<D>>,
    path: Seq<usize>,
    set: Set<usize>,
    i: int,
)
    requires
        model::is_path(payloads, path),
        model::all_white_after(slots, path),
        closed_over_white(slots, payloads, path.first(), set),
        1 <= i < path.len(),
    ensures
        set.contains(path[i]),
    decreases i,
{
    if i > 1 {
        white_path_stays_inside(slots, payloads, path, set, i - 1);
    }
    assert(model::refs_at(payloads, path[i - 1]).contains(path[i - 1 + 1]));
    assert(holds(payloads, path[i - 1], path[i]));
    assert(model::has(slots, path[i]));
    assert(white(slots, path[i]));
}

/// What a box holds is what its value holds.
pub proof fn a_box_holds_what_its_value_holds<D: CgcCompat>(heap: HeapView<D>, p: usize)
    ensures
        p < heap.payloads.len() && heap.payloads[p as int] is Some ==> heap.refs(p)
            == heap.payloads[p as int]->0.refs() && heap.payload(p) == heap.payloads[p as int]->0,
        !(p < heap.payloads.len() && heap.payloads[p as int] is Some) ==> heap.refs(p).len() == 0,
        heap.has(p) <==> p < heap.headers.len() && heap.headers[p as int] is Some,
        heap.has(p) ==> heap.header(p) == heap.headers[p as int]->0,
{
}

} // verus!
