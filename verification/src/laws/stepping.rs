//! What holds of each step of a collection.

use vstd::prelude::*;

use crate::compat::CgcCompat;
use crate::header::{CgcHeader, Color, NULL};
use crate::heap::{blacken, step, sweep, whiten};
use crate::laws::collecting;
use crate::laws::reaching;
use crate::model::HeapView;
use crate::phase::Phase;

verus! {

/// The two heaps have the same values in their boxes, and as much is allocated and may be. A
/// collection is under way in both or in neither.
pub open spec fn same_values<D: CgcCompat>(a: HeapView<D>, b: HeapView<D>) -> bool {
    &&& b.headers.len() == a.headers.len()
    &&& b.payloads == a.payloads
    &&& b.allocated == a.allocated
    &&& b.heap_space == a.heap_space
    &&& b.collecting == a.collecting
}

/// The two heaps have the same boxes on the same lists.
pub open spec fn same_lists<D: CgcCompat>(a: HeapView<D>, b: HeapView<D>) -> bool {
    &&& b.box_chain == a.box_chain
    &&& b.chain == a.chain
    &&& b.detached == a.detached
    &&& b.black == a.black
}

/// There is more to do after every step but the one that finds no box to free.
pub proof fn the_last_step_finds_nothing_to_free<D: CgcCompat>(
    before: HeapView<D>,
    after: HeapView<D>,
    more: bool,
)
    requires
        before.wf(),
        step::stepped(before, after, more),
    ensures
        !more <==> before.phase is Sweep && before.detached.len() == 0,
        !more <==> after.phase is Idle,
{
    if before.detached.len() > 0 {
        assert(before.detached.contains(before.detached[0]));
        assert(before.has(before.detached[0]));
    }
}

/// The first step goes to where the chain starts, and changes nothing else.
pub proof fn the_first_step_begins_the_chain<D: CgcCompat>(
    before: HeapView<D>,
    after: HeapView<D>,
)
    requires
        before.phase is Idle,
        whiten::begun(before, after) || step::stepped(before, after, true),
    ensures
        after.phase == (Phase::Whiten { at: before.box_chain }),
        after.done == 0,
        after.headers == before.headers,
        same_values(before, after),
        same_lists(before, after),
{
}

/// While boxes are whitened, a step colors the next box by its roots and goes on to the one after
/// it.
pub proof fn a_step_whitens_one_box<D: CgcCompat>(
    before: HeapView<D>,
    after: HeapView<D>,
    i: int,
)
    requires
        before.wf(),
        before.phase is Whiten,
        before.phase->Whiten_at != NULL,
        whiten::whitened_next(before, after) || step::stepped(before, after, true),
        0 <= i < before.headers.len(),
    ensures
        ({
            let at = before.phase->Whiten_at;
            let header = before.headers[at as int]->0;
            &&& collecting::there(before, at)
            &&& before.chain[before.done] == at
            &&& after.headers[at as int] == Some(
                CgcHeader {
                    size: header.size,
                    color: if header.roots > 0 {
                        Color::Gray
                    } else {
                        Color::White
                    },
                    roots: header.roots,
                    next: header.next,
                },
            )
            &&& i != at ==> after.headers[i] == before.headers[i]
            &&& after.phase == (Phase::Whiten { at: header.next })
        }),
        after.done == before.done + 1,
        same_values(before, after),
        same_lists(before, after),
{
}

/// Once all boxes are whitened, a step takes over all of them at once, in their order, and none
/// are left on the chain.
pub proof fn a_step_takes_over_all_boxes<D: CgcCompat>(before: HeapView<D>, after: HeapView<D>)
    requires
        before.phase == (Phase::Whiten { at: NULL }),
        blacken::taken_over(before, after) || step::stepped(before, after, true),
    ensures
        after.detached == before.chain,
        after.chain.len() == 0,
        after.box_chain == NULL,
        after.black == before.black,
        after.done == 0,
        after.headers == before.headers,
        same_values(before, after),
        after.phase == (Phase::Blacken {
            head: before.box_chain,
            before: NULL,
            at: before.box_chain,
            black_head: NULL,
            black_tail: NULL,
            saw_grays: false,
        }),
{
}

/// A pass that has met a gray box is followed by another one over the same boxes.
pub proof fn a_step_starts_another_pass<D: CgcCompat>(before: HeapView<D>, after: HeapView<D>)
    requires
        before.phase is Blacken,
        before.phase->Blacken_at == NULL,
        before.phase->saw_grays,
        blacken::passed_again(before, after) || step::stepped(before, after, true),
    ensures
        after.done == 0,
        after.headers == before.headers,
        same_values(before, after),
        same_lists(before, after),
        after.phase == (Phase::Blacken {
            head: before.phase->Blacken_head,
            before: NULL,
            at: before.phase->Blacken_head,
            black_head: before.phase->black_head,
            black_tail: before.phase->black_tail,
            saw_grays: false,
        }),
{
}

/// A pass goes past a white box and changes nothing.
pub proof fn a_step_goes_past_a_white_box<D: CgcCompat>(before: HeapView<D>, after: HeapView<D>)
    requires
        before.wf(),
        before.phase is Blacken,
        before.phase->Blacken_at != NULL,
        before.headers[before.phase->Blacken_at as int]->0.color == Color::White,
        blacken::visited_next(before, after) || step::stepped(before, after, true),
    ensures
        before.detached[before.done] == before.phase->Blacken_at,
        after.done == before.done + 1,
        after.headers == before.headers,
        same_values(before, after),
        same_lists(before, after),
        after.phase is Blacken,
        after.phase->saw_grays == before.phase->saw_grays,
{
}

/// A pass moves any other box from where it is to the front of the black list, and notes whether it
/// was gray. All other boxes stay in their order.
pub proof fn a_step_moves_a_box_to_the_front<D: CgcCompat>(
    before: HeapView<D>,
    after: HeapView<D>,
    i: int,
)
    requires
        before.wf(),
        before.phase is Blacken,
        before.phase->Blacken_at != NULL,
        before.headers[before.phase->Blacken_at as int]->0.color != Color::White,
        blacken::visited_next(before, after) || step::stepped(before, after, true),
        0 <= i < after.detached.len(),
    ensures
        before.detached[before.done] == before.phase->Blacken_at,
        after.detached.len() + 1 == before.detached.len(),
        i < before.done ==> after.detached[i] == before.detached[i],
        i >= before.done ==> after.detached[i] == before.detached[i + 1],
        after.black.len() == before.black.len() + 1,
        after.black[0] == before.phase->Blacken_at,
        after.black.skip(1) == before.black,
        after.chain == before.chain,
        after.box_chain == before.box_chain,
        after.done == before.done,
        same_values(before, after),
        after.phase is Blacken,
        after.phase->saw_grays == (before.phase->saw_grays
            || before.headers[before.phase->Blacken_at as int]->0.color == Color::Gray),
{
    assert(after.black.skip(1) =~= before.black);
}

/// Such a step blackens the box. If that was gray, it also blackens the white boxes that it holds,
/// and those that they hold. It changes no other color, and neither sizes nor roots.
pub proof fn a_step_blackens_what_a_box_leads_to<D: CgcCompat>(
    before: HeapView<D>,
    after: HeapView<D>,
    p: usize,
    q: usize,
)
    requires
        before.wf(),
        before.phase is Blacken,
        before.phase->Blacken_at != NULL,
        before.headers[before.phase->Blacken_at as int]->0.color != Color::White,
        blacken::visited_next(before, after) || step::stepped(before, after, true),
        collecting::there(before, p),
    ensures
        ({
            let at = before.phase->Blacken_at;
            let old_header = before.headers[p as int]->0;
            let new_header = after.headers[p as int]->0;
            let gray = before.headers[at as int]->0.color == Color::Gray;
            &&& collecting::there(after, p)
            &&& new_header.size == old_header.size
            &&& new_header.roots == old_header.roots
            &&& after.headers[at as int]->0.color == Color::Black
            &&& new_header.color != old_header.color ==> gray && new_header.color == Color::Black
                && (p == at || old_header.color == Color::White)
            &&& gray && (p == at || new_header.color != old_header.color) && reaching::holds(
                before.payloads,
                p,
                q,
            ) && collecting::there(before, q) ==> after.headers[q as int]->0.color != Color::White
        }),
{
    let at = before.phase->Blacken_at;
    assert(blacken::visited_next(before, after));
    assert(before.has(p) && before.has(at));
    assert(after.has(p) && after.has(at));
    if before.header(at).color == Color::Gray && (p == at || after.header(p).color != before.header(
        p,
    ).color) && reaching::holds(before.payloads, p, q) && collecting::there(before, q) {
        assert(before.has(q));
        assert(after.has(q));
        if before.header(q).color == Color::White {
            reaching::white_boxes_are_reached(before.headers, before.payloads, at, p, q);
        }
    }
}

/// Such a step blackens nothing else: a white box that it blackens is in every set that includes
/// the white boxes that the box, and the boxes in the set, hold.
pub proof fn a_step_blackens_nothing_else<D: CgcCompat>(
    before: HeapView<D>,
    after: HeapView<D>,
    set: Set<usize>,
    p: usize,
)
    requires
        before.wf(),
        before.phase is Blacken,
        before.phase->Blacken_at != NULL,
        before.headers[before.phase->Blacken_at as int]->0.color != Color::White,
        blacken::visited_next(before, after) || step::stepped(before, after, true),
        reaching::closed_over_white(
            before.headers,
            before.payloads,
            before.phase->Blacken_at,
            set,
        ),
        collecting::there(before, p),
        after.headers[p as int]->0.color != before.headers[p as int]->0.color,
    ensures
        p == before.phase->Blacken_at || set.contains(p),
{
    let at = before.phase->Blacken_at;
    assert(blacken::visited_next(before, after));
    assert(before.has(p));
    assert(after.has(p));
    if p != at {
        reaching::only_white_boxes_are_reached(before.headers, before.payloads, at, p, set);
    }
}

/// Once a pass has met no gray box, a step puts the black list in front of the chain. What was
/// taken over and is not on it is white, and is to be freed.
pub proof fn a_step_puts_the_black_list_back<D: CgcCompat>(
    before: HeapView<D>,
    after: HeapView<D>,
    p: usize,
)
    requires
        before.wf(),
        before.phase is Blacken,
        before.phase->Blacken_at == NULL,
        !before.phase->saw_grays,
        sweep::restored(before, after) || step::stepped(before, after, true),
        collecting::there(before, p),
    ensures
        after.chain == before.black + before.chain,
        after.black.len() == 0,
        after.detached == before.detached,
        same_values(before, after),
        after.phase == (Phase::Sweep { head: before.phase->Blacken_head, freed: 0 }),
        collecting::there(after, p),
        after.headers[p as int]->0.color == before.headers[p as int]->0.color,
        after.headers[p as int]->0.size == before.headers[p as int]->0.size,
        after.headers[p as int]->0.roots == before.headers[p as int]->0.roots,
        before.detached.contains(p) ==> before.headers[p as int]->0.color == Color::White
            && before.headers[p as int]->0.roots == 0,
{
    assert(before.has(p));
    assert(after.has(p));
}

/// While boxes are freed, a step frees the first one that is to be. It has no root, and no box that
/// stays holds it. Its size is noted, and the others stay as they are.
pub proof fn a_step_frees_one_box<D: CgcCompat>(
    before: HeapView<D>,
    after: HeapView<D>,
    i: int,
    p: usize,
)
    requires
        before.wf(),
        before.phase is Sweep,
        before.detached.len() > 0,
        sweep::freed_next(before, after) || step::stepped(before, after, true),
        0 <= i < before.headers.len(),
    ensures
        ({
            let node = before.detached[0];
            &&& collecting::there(before, node)
            &&& before.headers[node as int]->0.roots == 0
            &&& after.headers.len() == before.headers.len()
            &&& after.payloads.len() == before.payloads.len()
            &&& after.headers[node as int] is None
            &&& after.payloads[node as int] is None
            &&& i != node ==> after.headers[i] == before.headers[i] && after.payloads[i]
                == before.payloads[i]
            &&& after.detached.len() + 1 == before.detached.len()
            &&& before.detached.skip(1) == after.detached
            &&& reaching::holds(after.payloads, p, node) ==> before.detached.contains(p)
            &&& after.phase is Sweep
            &&& before.phase->freed + before.headers[node as int]->0.size <= usize::MAX
                ==> after.phase->freed == before.phase->freed
                + before.headers[node as int]->0.size
        }),
        after.chain == before.chain,
        after.box_chain == before.box_chain,
        after.black == before.black,
        after.allocated == before.allocated,
        after.heap_space == before.heap_space,
        after.collecting == before.collecting,
{
    let node = before.detached[0];
    assert(before.detached.contains(node));
    assert(before.has(node));
    assert(sweep::freed_next(before, after));
    assert(before.detached.skip(1) =~= after.detached);
    if reaching::holds(after.payloads, p, node) {
        assert(p != node);
        assert(before.has(p)) by {
            assert(p < before.headers.len());
            assert(before.has(p) <==> before.payloads[p as int] is Some);
        }
        let refs = before.refs(p);
        let j = choose|j: int| 0 <= j < refs.len() && refs[j] == node;
        if !before.detached.contains(p) {
            assert(!before.detached.contains(before.refs(p)[j]));
        }
    }
}

/// The last step takes what was freed off what is allocated, and changes nothing else.
pub proof fn the_last_step_accounts_for_what_was_freed<D: CgcCompat>(
    before: HeapView<D>,
    after: HeapView<D>,
)
    requires
        before.wf(),
        before.phase is Sweep,
        before.detached.len() == 0,
        sweep::accounted(before, after) || step::stepped(before, after, false),
    ensures
        after.phase == Phase::Idle,
        after.allocated + before.phase->freed == before.allocated,
        after.headers == before.headers,
        after.payloads == before.payloads,
        after.heap_space == before.heap_space,
        after.collecting == before.collecting,
        same_lists(before, after),
{
}

/// What two heaps with the same boxes have in common.
pub proof fn the_same_boxes_are_there<D: CgcCompat>(
    before: HeapView<D>,
    after: HeapView<D>,
    p: usize,
)
    requires
        blacken::same_boxes(before, after),
    ensures
        same_values(before, after),
        collecting::there(before, p) <==> collecting::there(after, p),
        collecting::there(before, p) ==> after.headers[p as int]->0.size
            == before.headers[p as int]->0.size && after.headers[p as int]->0.roots
            == before.headers[p as int]->0.roots,
{
    assert(after.has(p) <==> before.has(p));
}

} // verus!
