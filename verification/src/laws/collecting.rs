//! What holds of a collection as a whole.

use vstd::prelude::*;

use crate::compat::CgcCompat;
use crate::header::{CgcHeader, Color, NULL};
use crate::heap::{collect, step, whiten};
use crate::laws;
use crate::laws::reaching;
use crate::model;
use crate::model::HeapView;
use crate::phase::Phase;

verus! {

/// There is a box at `p`.
pub open spec fn there<D: CgcCompat>(heap: HeapView<D>, p: usize) -> bool {
    p < heap.headers.len() && heap.headers[p as int] is Some
}

/// What a collection keeps, it keeps as it was: the value, the size and the roots. It makes no
/// boxes.
pub proof fn what_is_kept_is_unchanged<D: CgcCompat>(
    before: HeapView<D>,
    after: HeapView<D>,
    p: usize,
)
    requires
        collect::collected(before, after),
        there(after, p),
    ensures
        there(before, p),
        after.payloads[p as int]->0 == before.payloads[p as int]->0,
        after.headers[p as int]->0.size == before.headers[p as int]->0.size,
        after.headers[p as int]->0.roots == before.headers[p as int]->0.roots,
        after.headers[p as int]->0.color == Color::Black,
        after.phase == Phase::Idle,
        after.headers.len() == before.headers.len(),
        after.allocated == model::total(after.headers),
{
    assert(after.has(p));
}

/// A collection keeps every box with a root, and every box that a box that it keeps holds.
pub proof fn what_a_root_leads_to_is_kept<D: CgcCompat>(
    before: HeapView<D>,
    after: HeapView<D>,
    p: usize,
    q: usize,
)
    requires
        before.wf(),
        before.phase is Idle,
        collect::collected(before, after),
    ensures
        there(before, p) && before.headers[p as int]->0.roots > 0 ==> there(after, p),
        there(after, p) && reaching::holds(before.payloads, p, q) ==> there(after, q),
{
    assert(after.has(p) <==> before.has(p) && before.live(p));
    assert(after.has(q) <==> before.has(q) && before.live(q));
    if there(before, p) && before.headers[p as int]->0.roots > 0 {
        assert(before.has(p));
        laws::rooted_is_live(before, p);
    }
    if there(after, p) && reaching::holds(before.payloads, p, q) {
        laws::held_is_live(before, p, q);
        laws::live_is_kept(before, q);
    }
}

/// A collection keeps nothing else: what it keeps is in every set that all boxes with a root are
/// in, and that includes all that the boxes in it hold.
pub proof fn what_no_root_leads_to_is_freed<D: CgcCompat>(
    before: HeapView<D>,
    after: HeapView<D>,
    set: Set<usize>,
    p: usize,
)
    requires
        collect::collected(before, after),
        reaching::closed(before.payloads, set),
        forall|r: usize| #[trigger]
            there(before, r) && before.headers[r as int]->0.roots > 0 ==> set.contains(r),
        !set.contains(p),
    ensures
        !there(after, p),
{
    if there(after, p) {
        assert(after.has(p));
        assert forall|r: usize|
            r < before.headers.len() && #[trigger] before.headers[r as int] is Some
                && before.headers[r as int]->0.roots > 0 implies set.contains(r) by {
            assert(there(before, r));
        }
        reaching::nothing_else_is_in_use(before, set, p);
    }
}

/// Whitening a box makes it gray if it has a root and white if not, and changes nothing else of
/// it.
pub proof fn whitening_goes_by_the_roots(header: CgcHeader)
    ensures
        header.roots > 0 ==> whiten::whitened(header).color == Color::Gray,
        header.roots == 0 ==> whiten::whitened(header).color == Color::White,
        whiten::whitened(header).roots == header.roots,
        whiten::whitened(header).size == header.size,
        whiten::whitened(header).next == header.next,
{
}

/// Darkening makes every box black that was taken over and is not white, and every white box that
/// a box holds that was gray or has been made black.
pub proof fn darkening_spreads<D: CgcCompat>(heap: HeapView<D>, p: usize, q: usize)
    requires
        heap.wf(),
        heap.phase is Blacken,
    ensures
        heap.detached.contains(p) && heap.headers[p as int]->0.color != Color::White
            ==> collect::color_after_blacken(heap, p) == Color::Black,
        heap.detached.contains(p) && collect::color_after_blacken(heap, p) == Color::Black && (
        heap.headers[p as int]->0.color != Color::Black) && reaching::holds(heap.payloads, p, q)
            && reaching::white(heap.headers, q) ==> collect::color_after_blacken(heap, q)
            == Color::Black,
{
    if heap.detached.contains(p) && collect::color_after_blacken(heap, p) == Color::Black
        && heap.headers[p as int]->0.color != Color::Black && reaching::holds(heap.payloads, p, q)
        && reaching::white(heap.headers, q) {
        assert(heap.has(q));
        if heap.chain.contains(q) {
            assert(heap.header(q).color != Color::White);
        }
        if heap.black.contains(q) {
            assert(heap.header(q).color != Color::White);
        }
        assert(heap.detached.contains(q));
        if heap.header(p).color == Color::Gray {
            reaching::white_boxes_are_reached(heap.headers, heap.payloads, p, p, q);
            assert(collect::reached_from_gray(heap, q));
        } else {
            let gray = choose|gray: usize| #[trigger]
                heap.detached.contains(gray) && heap.header(gray).color == Color::Gray
                    && model::reaches_white(heap.headers, heap.payloads, gray, p);
            reaching::white_boxes_are_reached(heap.headers, heap.payloads, gray, p, q);
            assert(collect::reached_from_gray(heap, q));
        }
    }
}

/// Darkening changes no other color: a box that it has made black and that was white is in every
/// set that includes the white boxes that gray boxes and the boxes in it hold.
pub proof fn darkening_spreads_no_further<D: CgcCompat>(
    heap: HeapView<D>,
    set: Set<usize>,
    p: usize,
)
    requires
        heap.phase is Blacken,
        forall|gray: usize| #[trigger]
            heap.detached.contains(gray) && heap.headers[gray as int]->0.color == Color::Gray
                ==> reaching::closed_over_white(heap.headers, heap.payloads, gray, set),
        collect::color_after_blacken(heap, p) != heap.headers[p as int]->0.color,
    ensures
        collect::color_after_blacken(heap, p) == Color::Black,
        heap.detached.contains(p),
        heap.headers[p as int]->0.color == Color::White ==> set.contains(p),
{
    if heap.header(p).color == Color::White {
        let gray = choose|gray: usize| #[trigger]
            heap.detached.contains(gray) && heap.header(gray).color == Color::Gray
                && model::reaches_white(heap.headers, heap.payloads, gray, p);
        reaching::only_white_boxes_are_reached(heap.headers, heap.payloads, gray, p, set);
    }
}

/// A whole collection is a chain of steps that begins with no collection under way, and whose last
/// step is the first one after which nothing is left to do.
pub proof fn a_collection_is_a_chain_of_steps<D: CgcCompat>(
    before: HeapView<D>,
    after: HeapView<D>,
    heaps: Seq<HeapView<D>>,
)
    requires
        heaps.len() >= 2,
        heaps.first() == before,
        heaps.last() == after,
        before.phase is Idle,
        forall|i: int| 0 <= i < heaps.len() ==> (#[trigger] heaps[i]).wf(),
        forall|i: int|
            0 <= i < heaps.len() - 1 ==> step::stepped(
                #[trigger] heaps[i],
                heaps[i + 1],
                i < heaps.len() - 2,
            ),
    ensures
        step::ran(before, after),
{
    let run = heaps.drop_last();
    assert forall|i: int| 0 <= i < run.len() implies (#[trigger] run[i]).wf() by {
        assert(heaps[i].wf());
    }
    assert forall|i: int| 0 <= i < run.len() - 1 implies step::stepped(
        #[trigger] run[i],
        run[i + 1],
        true,
    ) by {
        assert(step::stepped(heaps[i], heaps[i + 1], true));
    }
    assert(step::is_run(run));
    let last = run.last();
    assert(run.first() == before && run.last() == last);
    assert(step::runs_to(before, last));
    assert(step::stepped(heaps[heaps.len() - 2], heaps[heaps.len() - 2 + 1], false));
    assert(heaps[heaps.len() - 1].wf());
}

/// A whole collection begins with no collection under way and ends with none, and there is such a
/// chain of steps for it.
pub proof fn a_collection_has_a_chain_of_steps<D: CgcCompat>(
    before: HeapView<D>,
    after: HeapView<D>,
) -> (heaps: Seq<HeapView<D>>)
    requires
        step::ran(before, after),
    ensures
        heaps.len() >= 2,
        heaps.first() == before,
        heaps.last() == after,
        before.phase == Phase::Idle,
        forall|i: int| 0 <= i < heaps.len() ==> (#[trigger] heaps[i]).wf(),
        forall|i: int|
            0 <= i < heaps.len() - 1 ==> step::stepped(
                #[trigger] heaps[i],
                heaps[i + 1],
                i < heaps.len() - 2,
            ),
{
    let last = choose|last: HeapView<D>| #[trigger]
        step::runs_to(before, last) && step::stepped(last, after, false) && after.wf();
    let run = choose|heaps: Seq<HeapView<D>>| #[trigger]
        step::is_run(heaps) && heaps.first() == before && heaps.last() == last;
    let heaps = run.push(after);
    assert forall|i: int| 0 <= i < heaps.len() implies (#[trigger] heaps[i]).wf() by {
        if i < run.len() {
            assert(run[i].wf());
        }
    }
    assert forall|i: int| 0 <= i < heaps.len() - 1 implies step::stepped(
        #[trigger] heaps[i],
        heaps[i + 1],
        i < heaps.len() - 2,
    ) by {
        if i < run.len() - 1 {
            assert(step::stepped(run[i], run[i + 1], true));
        }
    }
    heaps
}

/// In every heap each box has one value, none of whose handles is rooted, and is on exactly one of
/// the three lists, once.
pub proof fn each_box_is_on_one_list<D: CgcCompat>(heap: HeapView<D>, p: usize)
    requires
        heap.wf(),
    ensures
        heap.headers.len() == heap.payloads.len(),
        p < heap.headers.len() ==> (heap.headers[p as int] is Some <==> heap.payloads[p as int] is Some),
        there(heap, p) ==> heap.payloads[p as int]->0.flagged(false),
        there(heap, p) ==> (heap.chain + heap.detached + heap.black).filter(|q: usize| q == p).len()
            == 1,
        (heap.chain + heap.detached + heap.black).contains(p) ==> there(heap, p),
{
    let all = heap.chain + heap.detached + heap.black;
    assert(heap.has(p) <==> there(heap, p));
    if p < heap.headers.len() {
        assert(heap.has(p) <==> heap.payloads[p as int] is Some);
    }
    if all.contains(p) {
        let i = choose|i: int| 0 <= i < all.len() && all[i] == p;
        if i < heap.chain.len() {
            assert(heap.chain[i] == p);
        } else if i < heap.chain.len() + heap.detached.len() {
            assert(heap.detached[i - heap.chain.len()] == p);
        } else {
            assert(heap.black[i - heap.chain.len() - heap.detached.len()] == p);
        }
        assert(heap.chain.contains(p) || heap.detached.contains(p) || heap.black.contains(p));
    }
    if there(heap, p) {
        assert(heap.chain.contains(p) || heap.detached.contains(p) || heap.black.contains(p));
        assert(all.no_duplicates()) by {
            assert forall|i: int, j: int|
                0 <= i < all.len() && 0 <= j < all.len() && i != j implies all[i] != all[j] by {
                on_some_list(heap, i);
                on_some_list(heap, j);
            }
        }
        assert(all.contains(p)) by {
            if heap.chain.contains(p) {
                let i = choose|i: int| 0 <= i < heap.chain.len() && heap.chain[i] == p;
                assert(all[i] == p);
            } else if heap.detached.contains(p) {
                let i = choose|i: int| 0 <= i < heap.detached.len() && heap.detached[i] == p;
                assert(all[heap.chain.len() + i] == p);
            } else {
                let i = choose|i: int| 0 <= i < heap.black.len() && heap.black[i] == p;
                assert(all[heap.chain.len() + heap.detached.len() + i] == p);
            }
        }
        occurs_once(all, p);
    }
}

proof fn on_some_list<D: CgcCompat>(heap: HeapView<D>, i: int)
    requires
        0 <= i < (heap.chain + heap.detached + heap.black).len(),
    ensures
        ({
            let all = heap.chain + heap.detached + heap.black;
            let n = heap.chain.len();
            let m = heap.detached.len();
            &&& i < n ==> heap.chain.contains(all[i]) && all[i] == heap.chain[i]
            &&& n <= i < n + m ==> heap.detached.contains(all[i]) && all[i] == heap.detached[i - n]
            &&& n + m <= i ==> heap.black.contains(all[i]) && all[i] == heap.black[i - n - m]
        }),
{
    let n = heap.chain.len();
    let m = heap.detached.len();
    if i < n {
        assert(heap.chain.contains(heap.chain[i]));
    } else if i < n + m {
        assert(heap.detached.contains(heap.detached[i - n]));
    } else {
        assert(heap.black.contains(heap.black[i - n - m]));
    }
}

proof fn occurs_once(list: Seq<usize>, p: usize)
    requires
        list.no_duplicates(),
    ensures
        list.filter(|q: usize| q == p).len() == (if list.contains(p) {
            1int
        } else {
            0
        }),
    decreases list.len(),
{
    reveal(Seq::filter);
    if list.len() > 0 {
        let rest = list.drop_last();
        occurs_once(rest, p);
        if list.contains(p) && list.last() != p {
            let i = choose|i: int| 0 <= i < list.len() && list[i] == p;
            assert(rest[i] == p);
        }
        if rest.contains(p) {
            let i = choose|i: int| 0 <= i < rest.len() && rest[i] == p;
            assert(list[i] == p);
        }
        assert(list.last() == p ==> list[list.len() - 1] == p);
    }
}

/// In every heap, following the links from where the chain starts leads over the boxes on it, one
/// after another, to its end.
pub proof fn the_chain_is_linked<D: CgcCompat>(heap: HeapView<D>, i: int)
    requires
        heap.wf(),
        0 <= i < heap.chain.len(),
    ensures
        heap.box_chain == heap.chain[0],
        there(heap, heap.chain[i]),
        i + 1 < heap.chain.len() ==> heap.headers[heap.chain[i] as int]->0.next
            == heap.chain[i + 1],
        i + 1 == heap.chain.len() ==> heap.headers[heap.chain[i] as int]->0.next == NULL,
{
    assert(model::has(heap.headers, heap.chain[i]));
}

/// A heap has no chain exactly if it starts at the end.
pub proof fn an_empty_chain_starts_at_its_end<D: CgcCompat>(heap: HeapView<D>)
    requires
        heap.wf(),
    ensures
        heap.box_chain == NULL <==> heap.chain.len() == 0,
{
    if heap.chain.len() > 0 {
        assert(model::has(heap.headers, heap.chain[0]));
    }
}

/// In every heap, what is allocated is what the boxes take, and what those took that were freed
/// and have not been accounted for.
pub proof fn what_is_allocated_is_accounted_for<D: CgcCompat>(heap: HeapView<D>)
    requires
        heap.wf(),
    ensures
        heap.phase matches Phase::Sweep { head, freed } ==> heap.allocated == model::total(
            heap.headers,
        ) + freed,
        !(heap.phase is Sweep) ==> heap.allocated == model::total(heap.headers),
{
}

} // verus!
