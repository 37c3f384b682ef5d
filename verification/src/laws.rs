//! What holds of the heap as a whole.

use vstd::prelude::*;

use crate::compat::CgcCompat;
use crate::header::{CgcHeader, Color};
use crate::heap::{blacken, collect, darken, mutate, step, sweep};
use crate::lemmas;
use crate::model;
use crate::model::{HeadersView, HeapView};

pub mod collecting;
pub mod deriving;
pub mod making;
pub mod reaching;
pub mod scanning;
pub mod stepping;
pub mod tables;
pub mod values;

verus! {

/// A box that has a root is in use.
pub proof fn rooted_is_live<D: CgcCompat>(heap: HeapView<D>, p: usize)
    requires
        heap.has(p),
        heap.header(p).roots > 0,
    ensures
        heap.live(p),
{
    lemmas::reaches_self(heap.payloads, p);
    assert(model::has(heap.headers, p));
}

/// What a box in use points to is in use.
pub proof fn held_is_live<D: CgcCompat>(heap: HeapView<D>, p: usize, q: usize)
    requires
        heap.live(p),
        heap.refs(p).contains(q),
    ensures
        heap.live(q),
{
    let root = choose|root: usize| #[trigger]
        model::has(heap.headers, root) && model::header_at(heap.headers, root).roots > 0
            && model::reaches(heap.payloads, root, p);
    lemmas::reaches_next(heap.payloads, root, p, q);
}

/// In every state that a heap can be in, a pointer in use is that of a box that is not about to be
/// freed, whatever was done between the steps of a collection.
pub proof fn live_is_kept<D: CgcCompat>(heap: HeapView<D>, p: usize)
    requires
        heap.wf(),
        heap.live(p),
    ensures
        heap.has(p),
        !heap.doomed(p),
{
    let root = choose|root: usize| #[trigger]
        model::has(heap.headers, root) && model::header_at(heap.headers, root).roots > 0
            && model::reaches(heap.payloads, root, p);
    let path = choose|path: Seq<usize>| #[trigger]
        model::is_path(heap.payloads, path) && path.first() == root && path.last() == p;
    assert(heap.has(root));
    assert(!heap.doomed(root)) by {
        if heap.doomed(root) {
            assert(heap.header(root).roots == 0);
        }
    }
    path_is_kept(heap, path, path.len() - 1);
}

/// No box on a path that starts at a box that stays is about to be freed.
proof fn path_is_kept<D: CgcCompat>(heap: HeapView<D>, path: Seq<usize>, i: int)
    requires
        heap.wf(),
        model::is_path(heap.payloads, path),
        heap.has(path.first()),
        !heap.doomed(path.first()),
        0 <= i < path.len(),
    ensures
        heap.has(path[i]),
        !heap.doomed(path[i]),
    decreases i,
{
    if i > 0 {
        path_is_kept(heap, path, i - 1);
        let q = path[i - 1];
        assert(model::refs_at(heap.payloads, q).contains(path[i - 1 + 1]));
        let j = choose|j: int| 0 <= j < heap.refs(q).len() && heap.refs(q)[j] == path[i];
        assert(model::has_all(heap.headers, heap.refs(q)));
        assert(heap.has(heap.refs(q)[j]));
    }
}

/// Unless boxes are being freed, what every box holds points to boxes.
pub proof fn held_is_there<D: CgcCompat>(heap: HeapView<D>)
    requires
        heap.wf(),
        !(heap.phase is Sweep),
    ensures
        model::closed_under_refs(heap.headers, heap.payloads),
{
    assert forall|p: usize| #[trigger] model::has(heap.headers, p) implies p < heap.payloads.len()
        && heap.payloads[p as int] is Some && model::has_all(
        heap.headers,
        model::refs_at(heap.payloads, p),
    ) by {
        assert(heap.has(p));
    }
}

/// A path is one in any heap in which the boxes on it hold the same.
proof fn path_frame<D: CgcCompat>(a: Seq<Option<D>>, b: Seq<Option<D>>, path: Seq<usize>)
    requires
        model::is_path(a, path),
        forall|i: int|
            0 <= i < path.len() ==> model::refs_at(b, #[trigger] path[i]) == model::refs_at(
                a,
                path[i],
            ),
    ensures
        model::is_path(b, path),
{
    assert forall|i: int| 0 <= i < path.len() - 1 implies model::refs_at(
        b,
        #[trigger] path[i],
    ).contains(path[i + 1]) by {
        assert(model::refs_at(a, path[i]).contains(path[i + 1]));
    }
}

/// What is in use stays in use when every box that stays keeps what it holds, and every root that
/// stays keeps having one.
proof fn live_frame<D: CgcCompat>(a: HeapView<D>, b: HeapView<D>, p: usize)
    requires
        a.wf(),
        a.live(p),
        forall|q: usize| #[trigger]
            a.has(q) && !a.doomed(q) ==> b.refs(q) == a.refs(q) && (a.header(q).roots > 0
                ==> b.has(q) && b.header(q).roots > 0),
    ensures
        b.live(p),
{
    let root = choose|root: usize| #[trigger]
        model::has(a.headers, root) && model::header_at(a.headers, root).roots > 0
            && model::reaches(a.payloads, root, p);
    let path = choose|path: Seq<usize>| #[trigger]
        model::is_path(a.payloads, path) && path.first() == root && path.last() == p;
    assert(a.has(root));
    rooted_is_live(a, root);
    live_is_kept(a, root);
    assert forall|i: int| 0 <= i < path.len() implies model::refs_at(b.payloads, #[trigger] path[i])
        == model::refs_at(a.payloads, path[i]) by {
        path_is_kept(a, path, i);
        assert(b.refs(path[i]) == a.refs(path[i]));
    }
    path_frame(a.payloads, b.payloads, path);
    assert(model::has(b.headers, root));
    assert(model::reaches(b.payloads, root, p));
}

/// Between two collections, what is allocated is what the boxes on the heap take.
pub proof fn allocated_is_what_boxes_take<D: CgcCompat>(heap: HeapView<D>)
    requires
        heap.wf(),
        heap.phase is Idle,
    ensures
        heap.allocated == model::total(heap.headers),
{
}

/// Coloring boxes and moving them between lists does not change what is in use.
pub proof fn marking_keeps_live<D: CgcCompat>(before: HeapView<D>, after: HeapView<D>, p: usize)
    requires
        before.wf(),
        blacken::same_boxes(before, after),
        before.live(p),
    ensures
        after.live(p),
        after.has(p),
{
    live_is_kept(before, p);
    assert(after.has(p));
    assert forall|q: usize| #[trigger] before.has(q) && !before.doomed(q) implies after.refs(q)
        == before.refs(q) && (before.header(q).roots > 0 ==> after.has(q) && after.header(q).roots
        > 0) by {
        assert(after.has(q));
    }
    live_frame(before, after, p);
}

/// Freeing a box that is about to be freed does not change what is in use.
pub proof fn sweeping_keeps_live<D: CgcCompat>(before: HeapView<D>, after: HeapView<D>, p: usize)
    requires
        before.wf(),
        before.phase is Sweep,
        before.detached.len() > 0,
        after.headers == before.headers.update(before.detached[0] as int, None),
        after.payloads == before.payloads.update(before.detached[0] as int, None),
        before.live(p),
    ensures
        after.live(p),
        after.has(p),
        after.payload(p) == before.payload(p),
{
    let node = before.detached[0];
    assert(before.detached.contains(node));
    live_is_kept(before, p);
    assert forall|q: usize| #[trigger] before.has(q) && !before.doomed(q) implies after.refs(q)
        == before.refs(q) && (before.header(q).roots > 0 ==> after.has(q) && after.header(q).roots
        > 0) by {
        assert(q != node);
    }
    live_frame(before, after, p);
}

/// No step of a collection frees a box in use, lets it go out of use or changes the value in it.
pub proof fn stepping_keeps_live<D: CgcCompat>(
    before: HeapView<D>,
    after: HeapView<D>,
    more: bool,
    p: usize,
)
    requires
        before.wf(),
        step::stepped(before, after, more),
        before.live(p),
    ensures
        after.live(p),
        after.has(p),
        after.payload(p) == before.payload(p),
{
    if before.phase is Sweep && more {
        sweeping_keeps_live(before, after, p);
    } else {
        live_is_kept(before, p);
        assert forall|q: usize| #[trigger] before.has(q) implies after.has(q) && after.header(q).roots
            == before.header(q).roots by {
            assert(after.has(q));
        }
        live_frame(before, after, p);
    }
}

/// Rooting a box, which makes another handle to it, does not let anything go out of use.
pub proof fn rooting_keeps_live<D: CgcCompat>(
    before: HeapView<D>,
    after: HeapView<D>,
    rooted: usize,
    p: usize,
)
    requires
        before.wf(),
        before.has(rooted),
        before.header(rooted).roots < usize::MAX,
        mutate::rooted_once(before, after, rooted),
        before.live(p),
    ensures
        after.live(rooted),
        after.live(p),
{
    rooted_is_live(after, rooted);
    assert forall|q: usize| #[trigger] before.has(q) && !before.doomed(q) implies after.refs(q)
        == before.refs(q) && (before.header(q).roots > 0 ==> after.has(q) && after.header(q).roots
        > 0) by {}
    live_frame(before, after, p);
}

/// Giving a handle back leaves in use whatever some other root still reaches.
pub proof fn unrooting_keeps_what_others_reach<D: CgcCompat>(
    before: HeapView<D>,
    after: HeapView<D>,
    unrooted: usize,
    root: usize,
    p: usize,
)
    requires
        before.has(unrooted),
        mutate::unrooted_once(before, after, unrooted),
        before.has(root),
        before.header(root).roots > (if root == unrooted {
            1int
        } else {
            0
        }),
        model::reaches(before.payloads, root, p),
    ensures
        after.live(p),
{
    assert(model::has(after.headers, root));
}

/// Making a box does not let anything go out of use: what the handles in its value had rooted is
/// now held by the box, which has a root itself.
pub proof fn making_keeps_live<D: CgcCompat>(
    before: HeapView<D>,
    after: HeapView<D>,
    made: usize,
    refs: Seq<usize>,
    size: usize,
    p: usize,
)
    requires
        before.wf(),
        after.wf(),
        mutate::inserted(before, after, made, refs, size),
        forall|q: usize| #[trigger]
            before.has(q) ==> model::occurrences(refs, q) <= before.header(q).roots,
        before.live(p),
    ensures
        after.live(made),
        after.live(p),
{
    rooted_is_live(after, made);
    let root = choose|root: usize| #[trigger]
        model::has(before.headers, root) && model::header_at(before.headers, root).roots > 0
            && model::reaches(before.payloads, root, p);
    let path = choose|path: Seq<usize>| #[trigger]
        model::is_path(before.payloads, path) && path.first() == root && path.last() == p;
    assert(before.has(root));
    rooted_is_live(before, root);
    live_is_kept(before, root);
    assert forall|i: int| 0 <= i < path.len() implies model::refs_at(
        after.payloads,
        #[trigger] path[i],
    ) == model::refs_at(before.payloads, path[i]) by {
        path_is_kept(before, path, i);
        assert(before.has(path[i]));
        assert(after.has(path[i]));
        assert(path[i] < before.payloads.len());
        assert(before.payloads[path[i] as int] is Some);
    }
    path_frame(before.payloads, after.payloads, path);
    if after.header(root).roots > 0 {
        assert(after.has(root));
        assert(model::has(after.headers, root));
        assert(model::reaches(after.payloads, root, p));
    } else {
        assert(model::occurrences(refs, root) > 0);
        if !refs.contains(root) {
            lemmas::occurs_not(refs, root);
        }
        let longer = seq![made] + path;
        assert(model::is_path(after.payloads, longer)) by {
            assert forall|i: int| 0 <= i < longer.len() - 1 implies model::refs_at(
                after.payloads,
                #[trigger] longer[i],
            ).contains(longer[i + 1]) by {
                if i > 0 {
                    assert(longer[i] == path[i - 1]);
                    assert(longer[i + 1] == path[i - 1 + 1]);
                    assert(model::refs_at(after.payloads, path[i - 1]).contains(path[i - 1 + 1]));
                } else {
                    assert(after.refs(made) == refs);
                }
            }
        }
        assert(longer.first() == made && longer.last() == p);
        assert(model::has(after.headers, made));
        assert(model::reaches(after.payloads, made, p));
    }
}

/// A box that was made while a collection is darkening or freeing boxes is not among those that it
/// may free.
pub proof fn made_is_not_taken_over<D: CgcCompat>(
    before: HeapView<D>,
    after: HeapView<D>,
    made: usize,
    refs: Seq<usize>,
    size: usize,
)
    requires
        before.wf(),
        mutate::inserted(before, after, made, refs, size),
    ensures
        !after.detached.contains(made),
        !after.doomed(made),
{
    if before.detached.contains(made) {
        assert(before.has(made));
    }
}

/// Darkening a handle to a white box, and then what is noted until nothing is left, comes to an
/// end. It blackens that box and exactly those that it reaches over white boxes, leaves all else
/// as it was, and darkens the contents of each box that it has blackened once.
pub proof fn darkening_blackens_what_is_reached<D: CgcCompat>(
    table: HeadersView,
    payloads: Seq<Option<D>>,
    p: usize,
    tables: Seq<HeadersView>,
)
    requires
        model::closed_under_refs(table.slots, payloads),
        table.pending.len() == 0,
        model::has(table.slots, p),
        model::header_at(table.slots, p).color == Color::White,
        model::is_darkening(tables, payloads),
        tables.first() == model::darken_all(table, seq![p]),
    ensures
        tables.len() - 1 <= model::whites(table.slots),
        tables.last().pending.len() == 0 ==> {
            &&& tables.len() - 1 == model::whites(table.slots) - model::whites(
                tables.last().slots,
            )
            &&& forall|q: usize| #[trigger]
                model::has(tables.last().slots, q) <==> model::has(table.slots, q)
            &&& forall|q: usize| #[trigger]
                model::has(tables.last().slots, q) ==> model::header_at(tables.last().slots, q)
                    == (CgcHeader {
                    color: if model::header_at(table.slots, q).color == Color::White && (q == p
                        || model::reaches_white(table.slots, payloads, p, q)) {
                        Color::Black
                    } else {
                        model::header_at(table.slots, q).color
                    },
                    ..model::header_at(table.slots, q)
                })
        },
{
    reveal_with_fuel(model::darken_all, 2);
    assert(seq![p].drop_last() =~= Seq::<usize>::empty());
    darken::darkening_known(table, payloads, p, tables, tables.len() - 1);
    if tables.last().pending.len() == 0 {
        assert forall|q: usize| #[trigger]
            model::has(tables.last().slots, q) <==> model::has(table.slots, q) by {
            darken::darkening_done(table, payloads, p, tables, q);
        }
        assert forall|q: usize| #[trigger] model::has(tables.last().slots, q) implies
            model::header_at(tables.last().slots, q) == (CgcHeader {
            color: if model::header_at(table.slots, q).color == Color::White && (q == p
                || model::reaches_white(table.slots, payloads, p, q)) {
                Color::Black
            } else {
                model::header_at(table.slots, q).color
            },
            ..model::header_at(table.slots, q)
        }) by {
            darken::darkening_done(table, payloads, p, tables, q);
        }
    }
}

/// While boxes are darkened, a box that has a root is never taken to be out of use.
pub proof fn rooted_is_not_white<D: CgcCompat>(heap: HeapView<D>, p: usize)
    requires
        heap.wf(),
        heap.phase is Blacken,
        heap.has(p),
        heap.header(p).roots > 0,
    ensures
        heap.header(p).color != Color::White,
{
}

/// A box that was made after a collection took over the others cannot be what keeps a white box in
/// use: it only points to boxes that are found to be in use without it.
pub proof fn made_points_to_no_white<D: CgcCompat>(heap: HeapView<D>, p: usize, q: usize)
    requires
        heap.wf(),
        heap.phase is Blacken,
        heap.chain.contains(p),
        heap.refs(p).contains(q),
    ensures
        heap.header(q).color != Color::White,
{
    let i = choose|i: int| 0 <= i < heap.refs(p).len() && heap.refs(p)[i] == q;
    assert(heap.header(heap.refs(p)[i]).color != Color::White);
}

/// A second collection right after a first one frees nothing more: the same boxes are there, and
/// as much is allocated.
pub proof fn collecting_again_frees_nothing<D: CgcCompat>(
    before: HeapView<D>,
    after: HeapView<D>,
    again: HeapView<D>,
)
    requires
        before.wf(),
        before.phase is Idle,
        after.wf(),
        collect::collected(before, after),
        collect::collected(after, again),
    ensures
        forall|p: usize| #[trigger] again.has(p) <==> after.has(p),
        again.allocated == after.allocated,
{
    assert forall|p: usize| #[trigger] again.has(p) <==> after.has(p) by {
        if after.has(p) {
            kept_is_live(before, after, p);
        }
        assert(again.has(p) <==> after.has(p) && after.live(p));
    }
    assert forall|i: int| 0 <= i < again.headers.len() implies lemmas::weight(
        #[trigger] again.headers[i],
    ) == lemmas::weight(after.headers[i]) by {
        let p = i as usize;
        assert(again.has(p) <==> after.has(p));
    }
    lemmas::total_same(again.headers, after.headers);
}

/// After a second collection right after a first one, as much may be allocated before the next one
/// as after the first, if what decides it gives one result for each argument.
pub proof fn collecting_again_grants_the_same<D: CgcCompat, F: Fn(usize) -> isize>(
    before: HeapView<D>,
    after: HeapView<D>,
    again: HeapView<D>,
    scale: F,
)
    requires
        before.wf(),
        before.phase is Idle,
        after.wf(),
        collect::collected(before, after),
        collect::collected(after, again),
        exists|scaled: isize| #[trigger]
            call_ensures(scale, (after.allocated,), scaled) && after.heap_space
                == sweep::heap_space_after(scaled),
        exists|scaled: isize| #[trigger]
            call_ensures(scale, (again.allocated,), scaled) && again.heap_space
                == sweep::heap_space_after(scaled),
        forall|allocated: usize, a: isize, b: isize| #[trigger]
            call_ensures(scale, (allocated,), a) && #[trigger] call_ensures(scale, (allocated,), b)
                ==> a == b,
    ensures
        again.heap_space == after.heap_space,
{
    collecting_again_frees_nothing(before, after, again);
}

/// A box that a collection has kept is in use after it.
proof fn kept_is_live<D: CgcCompat>(before: HeapView<D>, after: HeapView<D>, p: usize)
    requires
        before.wf(),
        before.phase is Idle,
        after.wf(),
        collect::collected(before, after),
        after.has(p),
    ensures
        after.live(p),
{
    assert(before.has(p) && before.live(p));
    let root = choose|root: usize| #[trigger]
        model::has(before.headers, root) && model::header_at(before.headers, root).roots > 0
            && model::reaches(before.payloads, root, p);
    let path = choose|path: Seq<usize>| #[trigger]
        model::is_path(before.payloads, path) && path.first() == root && path.last() == p;
    assert(before.has(root));
    rooted_is_live(before, root);
    assert(after.has(root));
    assert forall|i: int| 0 <= i < path.len() implies model::refs_at(
        after.payloads,
        #[trigger] path[i],
    ) == model::refs_at(before.payloads, path[i]) by {
        path_is_kept(before, path, i);
        path_is_live(before, path, i);
        assert(after.has(path[i]));
    }
    path_frame(before.payloads, after.payloads, path);
    assert(model::has(after.headers, root));
    assert(model::reaches(after.payloads, root, p));
}

/// Every box on a path that starts at a box in use is in use.
proof fn path_is_live<D: CgcCompat>(heap: HeapView<D>, path: Seq<usize>, i: int)
    requires
        model::is_path(heap.payloads, path),
        heap.live(path.first()),
        0 <= i < path.len(),
    ensures
        heap.live(path[i]),
    decreases i,
{
    if i > 0 {
        path_is_live(heap, path, i - 1);
        assert(model::refs_at(heap.payloads, path[i - 1]).contains(path[i - 1 + 1]));
        held_is_live(heap, path[i - 1], path[i]);
    }
}

/// A collection that is done step by step, with nothing between the steps, frees exactly what was
/// not in use when it began.
pub proof fn steps_collect<D: CgcCompat>(before: HeapView<D>, after: HeapView<D>)
    requires
        step::ran(before, after),
    ensures
        collect::collected(before, after),
{
    collect::all_steps_collect(before, after);
}

/// A heap determines the heap that the next step of a collection leaves, in every part, and
/// whether there is more to do.
pub proof fn a_step_is_determined<D: CgcCompat>(
    before: HeapView<D>,
    a: HeapView<D>,
    more_a: bool,
    b: HeapView<D>,
    more_b: bool,
)
    requires
        before.wf(),
        a.wf(),
        b.wf(),
        step::stepped(before, a, more_a),
        step::stepped(before, b, more_b),
    ensures
        a == b,
        more_a == more_b,
{
    if before.phase is Blacken && blacken::same_boxes(before, a) && blacken::same_boxes(before, b) {
        assert forall|p: usize| #[trigger] a.has(p) <==> b.has(p) by {
            assert(a.has(p) <==> before.has(p));
        }
        assert forall|p: usize| #[trigger] a.has(p) implies a.header(p) == (CgcHeader {
            next: a.header(p).next,
            ..b.header(p)
        }) by {
            assert(b.has(p));
        }
        same_links(a, b);
        assert(a.phase == b.phase);
    }
}

/// Two heaps whose boxes are in the same order on the same lists, and agree otherwise, have the
/// same links.
proof fn same_links<D: CgcCompat>(a: HeapView<D>, b: HeapView<D>)
    requires
        a.wf(),
        b.wf(),
        a.headers.len() == b.headers.len(),
        a.chain == b.chain,
        a.detached == b.detached,
        a.black == b.black,
        a.phase is Blacken && b.phase is Blacken || a.phase is Sweep && b.phase is Sweep,
        forall|p: usize| #[trigger] a.has(p) <==> b.has(p),
        forall|p: usize| #[trigger]
            a.has(p) ==> a.header(p) == (CgcHeader { next: a.header(p).next, ..b.header(p) }),
    ensures
        a.headers == b.headers,
        a.box_chain == b.box_chain,
{
    assert forall|i: int| 0 <= i < a.headers.len() implies #[trigger] a.headers[i]
        == b.headers[i] by {
        let p = i as usize;
        assert(a.has(p) <==> b.has(p));
        if a.has(p) {
            assert(a.header(p).next == b.header(p).next) by {
                if a.chain.contains(p) {
                    let j = choose|j: int| 0 <= j < a.chain.len() && a.chain[j] == p;
                    assert(model::header_at(a.headers, a.chain[j]).next
                        == model::header_at(b.headers, b.chain[j]).next);
                } else if a.detached.contains(p) {
                    let j = choose|j: int| 0 <= j < a.detached.len() && a.detached[j] == p;
                    assert(model::header_at(a.headers, a.detached[j]).next
                        == model::header_at(b.headers, b.detached[j]).next);
                } else {
                    let j = choose|j: int| 0 <= j < a.black.len() && a.black[j] == p;
                    assert(model::header_at(a.headers, a.black[j]).next
                        == model::header_at(b.headers, b.black[j]).next);
                }
            }
        }
    }
    assert(a.headers =~= b.headers);
}

/// A heap determines the heap that a collection leaves when nothing comes between its steps, in
/// every part: also the order in which the boxes are linked.
pub proof fn a_collection_is_determined<D: CgcCompat>(
    before: HeapView<D>,
    a: HeapView<D>,
    b: HeapView<D>,
)
    requires
        step::ran(before, a),
        step::ran(before, b),
    ensures
        a == b,
{
    let last_a = choose|last: HeapView<D>| #[trigger]
        step::runs_to(before, last) && step::stepped(last, a, false) && a.wf();
    let last_b = choose|last: HeapView<D>| #[trigger]
        step::runs_to(before, last) && step::stepped(last, b, false) && b.wf();
    let heaps_a = choose|heaps: Seq<HeapView<D>>| #[trigger]
        step::is_run(heaps) && heaps.first() == before && heaps.last() == last_a;
    let heaps_b = choose|heaps: Seq<HeapView<D>>| #[trigger]
        step::is_run(heaps) && heaps.first() == before && heaps.last() == last_b;
    let n = if heaps_a.len() < heaps_b.len() {
        heaps_a.len() - 1
    } else {
        heaps_b.len() - 1
    };
    same_steps(heaps_a, heaps_b, n);
    assert(heaps_a[n].wf());
    if n < heaps_b.len() - 1 {
        assert(heaps_b[n + 1].wf());
        assert(step::stepped(heaps_b[n], heaps_b[n + 1], true));
        a_step_is_determined(heaps_b[n], a, false, heaps_b[n + 1], true);
    }
    if n < heaps_a.len() - 1 {
        assert(heaps_a[n + 1].wf());
        assert(step::stepped(heaps_a[n], heaps_a[n + 1], true));
        a_step_is_determined(heaps_a[n], heaps_a[n + 1], true, b, false);
    }
    a_step_is_determined(heaps_a[n], a, false, b, false);
}

proof fn same_steps<D: CgcCompat>(a: Seq<HeapView<D>>, b: Seq<HeapView<D>>, i: int)
    requires
        step::is_run(a),
        step::is_run(b),
        a.first() == b.first(),
        0 <= i < a.len(),
        i < b.len(),
    ensures
        a[i] == b[i],
    decreases i,
{
    if i > 0 {
        same_steps(a, b, i - 1);
        assert(a[i - 1].wf() && a[i].wf() && b[i].wf());
        assert(step::stepped(a[i - 1], a[i - 1 + 1], true));
        assert(step::stepped(b[i - 1], b[i - 1 + 1], true));
        a_step_is_determined(a[i - 1], a[i], true, b[i], true);
    }
}

/// Collecting garbage and ending the collection leaves what only collecting garbage leaves, but
/// that no collection is under way any more, if what decides how much may be allocated gives one
/// result for each argument.
pub proof fn ending_a_collection_changes_nothing_else<D: CgcCompat, F: Fn(usize) -> isize>(
    before: HeapView<D>,
    done: HeapView<D>,
    ended: HeapView<D>,
    scale: F,
)
    requires
        step::ran(before, (HeapView { heap_space: before.heap_space, ..done })),
        step::ran(
            before,
            (HeapView {
                heap_space: before.heap_space,
                collecting: before.collecting,
                ..ended
            }),
        ),
        done.collecting == before.collecting,
        !ended.collecting,
        exists|scaled: isize| #[trigger]
            call_ensures(scale, (done.allocated,), scaled) && done.heap_space
                == sweep::heap_space_after(scaled),
        exists|scaled: isize| #[trigger]
            call_ensures(scale, (ended.allocated,), scaled) && ended.heap_space
                == sweep::heap_space_after(scaled),
        forall|allocated: usize, a: isize, b: isize| #[trigger]
            call_ensures(scale, (allocated,), a) && #[trigger] call_ensures(scale, (allocated,), b)
                ==> a == b,
    ensures
        ended == (HeapView { collecting: false, ..done }),
{
    let a = HeapView { heap_space: before.heap_space, ..done };
    let b = HeapView {
        heap_space: before.heap_space,
        collecting: before.collecting,
        ..ended
    };
    a_collection_is_determined(before, a, b);
    assert(done.allocated == a.allocated && ended.allocated == b.allocated);
}

/// When no box has a root, a collection frees all of them, and nothing is allocated any more.
pub proof fn collecting_without_roots_empties<D: CgcCompat>(
    before: HeapView<D>,
    after: HeapView<D>,
)
    requires
        collect::collected(before, after),
        forall|p: usize| #[trigger] before.has(p) ==> before.header(p).roots == 0,
        before.headers.len() <= usize::MAX,
    ensures
        forall|p: usize| !after.has(p),
        after.allocated == 0,
{
    assert forall|p: usize| !after.has(p) by {
        if after.has(p) {
            let root = choose|root: usize| #[trigger]
                model::has(before.headers, root) && model::header_at(before.headers, root).roots
                    > 0 && model::reaches(before.payloads, root, p);
            assert(before.has(root));
        }
    }
    assert forall|i: int| 0 <= i < after.headers.len() implies #[trigger] after.headers[i] is None by {
        assert(!after.has(i as usize));
    }
    total_of_none(after.headers);
}

proof fn total_of_none(slots: Seq<Option<CgcHeader>>)
    requires
        forall|i: int| 0 <= i < slots.len() ==> #[trigger] slots[i] is None,
    ensures
        model::total(slots) == 0,
    decreases slots.len(),
{
    if slots.len() > 0 {
        total_of_none(slots.drop_last());
    }
}

/// After a collection at least what a new heap may allocate may be allocated before the next one.
pub proof fn heap_space_is_granted(scaled: isize)
    ensures
        sweep::heap_space_after(scaled) >= crate::heap::INITIAL_HEAP_SIZE,
        sweep::heap_space_after(scaled) >= scaled,
{
}

/// Rooting a box and unrooting it again gives it back the number of roots that it had, and so does
/// unrooting it and rooting it again.
pub proof fn rooting_is_undone(header: CgcHeader)
    ensures
        header.rooted().unrooted().roots == header.roots,
        header.unrooted().rooted().roots == header.roots,
        header.unrooted().color == header.color,
{
}

/// What is done to a heap, as far as the handles to one box go.
pub enum Deed {
    /// A handle to the box is cloned.
    Cloned,
    /// A rooted handle to the box is given back.
    Dropped,
    /// Something that leaves the box its roots.
    Other,
}

/// Each heap comes from the one before it by a deed, as far as the box at `p` goes.
pub open spec fn done_to<D: CgcCompat>(
    heaps: Seq<HeapView<D>>,
    deeds: Seq<Deed>,
    p: usize,
) -> bool {
    &&& heaps.len() == deeds.len() + 1
    &&& forall|i: int| #![trigger deeds[i]]
        0 <= i < deeds.len() ==> match deeds[i] {
            Deed::Cloned => heaps[i].header(p).roots < usize::MAX && mutate::rooted_once(
                heaps[i],
                heaps[i + 1],
                p,
            ),
            Deed::Dropped => heaps[i].header(p).roots > 0 && mutate::unrooted_once(
                heaps[i],
                heaps[i + 1],
                p,
            ),
            Deed::Other => heaps[i + 1].has(p) && heaps[i + 1].header(p).roots
                == heaps[i].header(p).roots,
        }
}

/// How many of the deeds clone a handle, less how many of them give one back.
pub open spec fn handles_added(deeds: Seq<Deed>) -> int
    decreases deeds.len(),
{
    if deeds.len() == 0 {
        0
    } else {
        handles_added(deeds.drop_last()) + (match deeds.last() {
            Deed::Cloned => 1int,
            Deed::Dropped => -1,
            Deed::Other => 0,
        })
    }
}

/// A box has as many roots as there are rooted handles to it: the one that it was made with, and
/// those that were cloned and not given back.
pub proof fn roots_count_handles<D: CgcCompat>(
    heaps: Seq<HeapView<D>>,
    deeds: Seq<Deed>,
    p: usize,
)
    requires
        done_to(heaps, deeds, p),
        heaps.first().has(p),
        heaps.first().header(p).roots == 1,
    ensures
        heaps.last().has(p),
        heaps.last().header(p).roots == 1 + handles_added(deeds),
    decreases deeds.len(),
{
    if deeds.len() > 0 {
        let n = deeds.len() - 1;
        let rest = deeds.drop_last();
        assert(done_to(heaps.drop_last(), rest, p)) by {
            assert forall|i: int| #![trigger rest[i]] 0 <= i < rest.len() implies rest[i]
                == deeds[i] by {}
        }
        roots_count_handles(heaps.drop_last(), rest, p);
        assert(heaps.drop_last().last() == heaps[n]);
        assert(heaps[n + 1] == heaps.last());
        assert(deeds[n] == deeds.last());
    }
}

/// A step of a collection leaves a box in use its roots. So does making a box whose value has no
/// handle to it, and rooting or unrooting another box.
pub proof fn others_leave_the_roots<D: CgcCompat>(
    before: HeapView<D>,
    after: HeapView<D>,
    p: usize,
    more: bool,
    other: usize,
    refs: Seq<usize>,
    size: usize,
)
    requires
        before.wf(),
        before.has(p),
        ({
            ||| before.live(p) && step::stepped(before, after, more)
            ||| !refs.contains(p) && mutate::inserted(before, after, other, refs, size)
            ||| other != p && before.has(other) && mutate::rooted_once(before, after, other)
            ||| other != p && before.has(other) && mutate::unrooted_once(before, after, other)
        }),
    ensures
        after.has(p),
        after.header(p).roots == before.header(p).roots,
{
    if before.live(p) && step::stepped(before, after, more) {
        stepping_keeps_live(before, after, more, p);
    } else if !refs.contains(p) && mutate::inserted(before, after, other, refs, size) {
        lemmas::occurs_not(refs, p);
        assert(after.has(p));
    }
}

/// Rooting all handles in a value and unrooting them again gives every box back the number of
/// roots that it had.
pub proof fn rooting_a_value_is_undone(
    slots: Seq<Option<CgcHeader>>,
    refs: Seq<usize>,
    p: usize,
)
    requires
        model::has_all(slots, refs),
        model::has(slots, p),
    ensures
        model::has(model::unroot_all(model::root_all(slots, refs), refs), p),
        model::header_at(model::unroot_all(model::root_all(slots, refs), refs), p).roots
            == model::header_at(slots, p).roots,
{
    let rooted = model::root_all(slots, refs);
    let n = model::occurrences(refs, p) as int;
    let roots = model::header_at(slots, p).roots as int;
    root_all_adds(slots, refs, p);
    assert forall|i: int| 0 <= i < refs.len() implies model::has(rooted, #[trigger] refs[i]) by {
        assert(model::has(slots, refs[i]));
        root_all_adds(slots, refs, refs[i]);
    }
    unroot_all_subtracts(rooted, refs, p);
    let m = usize::MAX + 1;
    vstd::arithmetic::div_mod::lemma_sub_mod_noop_right(n, roots + n, m);
    vstd::arithmetic::div_mod::lemma_sub_mod_noop(roots + n, n, m);
    vstd::arithmetic::div_mod::lemma_sub_mod_noop((roots + n) % m, n, m);
    vstd::arithmetic::div_mod::lemma_mod_twice(roots + n, m);
    vstd::arithmetic::div_mod::lemma_small_mod(roots as nat, m as nat);
}

proof fn root_all_adds(slots: Seq<Option<CgcHeader>>, refs: Seq<usize>, p: usize)
    requires
        model::has_all(slots, refs),
        model::has(slots, p),
    ensures
        model::has(model::root_all(slots, refs), p),
        model::header_at(model::root_all(slots, refs), p).roots == (model::header_at(
            slots,
            p,
        ).roots + model::occurrences(refs, p)) % (usize::MAX + 1),
    decreases refs.len(),
{
    let m = usize::MAX + 1;
    if refs.len() == 0 {
        vstd::arithmetic::div_mod::lemma_small_mod(
            model::header_at(slots, p).roots as nat,
            m as nat,
        );
    } else {
        let rest = refs.drop_last();
        assert forall|i: int| 0 <= i < rest.len() implies model::has(slots, #[trigger] rest[i]) by {
            assert(model::has(slots, refs[i]));
        }
        root_all_adds(slots, rest, p);
        assert(model::has(slots, refs[refs.len() - 1]));
        root_all_adds(slots, rest, refs.last());
        let n = model::header_at(slots, p).roots + model::occurrences(rest, p);
        vstd::arithmetic::div_mod::lemma_add_mod_noop(n as int, 1, m);
        vstd::arithmetic::div_mod::lemma_add_mod_noop(n as int % m, 1, m);
        vstd::arithmetic::div_mod::lemma_mod_twice(n as int, m);
        wraps_up(n as int % m, m);
    }
}

proof fn unroot_all_subtracts(slots: Seq<Option<CgcHeader>>, refs: Seq<usize>, p: usize)
    requires
        model::has_all(slots, refs),
        model::has(slots, p),
    ensures
        model::has(model::unroot_all(slots, refs), p),
        model::header_at(model::unroot_all(slots, refs), p).roots == (model::header_at(
            slots,
            p,
        ).roots - model::occurrences(refs, p)) % (usize::MAX + 1),
    decreases refs.len(),
{
    let m = usize::MAX + 1;
    if refs.len() == 0 {
        vstd::arithmetic::div_mod::lemma_small_mod(
            model::header_at(slots, p).roots as nat,
            m as nat,
        );
    } else {
        let rest = refs.drop_last();
        assert forall|i: int| 0 <= i < rest.len() implies model::has(slots, #[trigger] rest[i]) by {
            assert(model::has(slots, refs[i]));
        }
        unroot_all_subtracts(slots, rest, p);
        assert(model::has(slots, refs[refs.len() - 1]));
        unroot_all_subtracts(slots, rest, refs.last());
        let n = model::header_at(slots, p).roots - model::occurrences(rest, p);
        vstd::arithmetic::div_mod::lemma_sub_mod_noop(n, 1, m);
        vstd::arithmetic::div_mod::lemma_sub_mod_noop(n % m, 1, m);
        vstd::arithmetic::div_mod::lemma_mod_twice(n, m);
        wraps_down(n % m, m);
    }
}

proof fn wraps_up(x: int, m: int)
    requires
        0 <= x < m,
    ensures
        (x + 1) % m == (if x == m - 1 {
            0
        } else {
            x + 1
        }),
{
    if x == m - 1 {
        vstd::arithmetic::div_mod::lemma_mod_self_0(m);
    } else {
        vstd::arithmetic::div_mod::lemma_small_mod((x + 1) as nat, m as nat);
    }
}

proof fn wraps_down(x: int, m: int)
    requires
        0 <= x < m,
        1 < m,
    ensures
        (x - 1) % m == (if x == 0 {
            m - 1
        } else {
            x - 1
        }),
{
    if x == 0 {
        vstd::arithmetic::div_mod::lemma_mod_add_multiples_vanish(-1, m);
        vstd::arithmetic::div_mod::lemma_small_mod((m - 1) as nat, m as nat);
    } else {
        vstd::arithmetic::div_mod::lemma_small_mod((x - 1) as nat, m as nat);
    }
}

/// Rooting, unrooting and darkening a value that is made of two others does it to the first and
/// then to the second.
pub proof fn part_by_part(table: HeadersView, first: Seq<usize>, second: Seq<usize>)
    ensures
        model::root_all(table.slots, first + second) == model::root_all(
            model::root_all(table.slots, first),
            second,
        ),
        model::unroot_all(table.slots, first + second) == model::unroot_all(
            model::unroot_all(table.slots, first),
            second,
        ),
        model::darken_all(table, first + second) == model::darken_all(
            model::darken_all(table, first),
            second,
        ),
    decreases second.len(),
{
    if second.len() == 0 {
        assert(first + second =~= first);
    } else {
        assert((first + second).drop_last() =~= first + second.drop_last());
        part_by_part(table, first, second.drop_last());
    }
}

} // verus!
