use vstd::prelude::*;

use crate::compat::CgcCompat;
use crate::header::{CgcHeader, Color, NULL};
use crate::heap::{blacken, Heap, INITIAL_HEAP_SIZE};
use crate::laws;
use crate::lemmas;
use crate::model;
use crate::model::HeapView;
use crate::phase::Phase;

verus! {

/// How many bytes may be allocated before the next collection, where `scaled` is seven tenths of
/// what is allocated after this one.
pub open spec fn heap_space_after(scaled: isize) -> isize {
    if scaled > INITIAL_HEAP_SIZE {
        scaled
    } else {
        INITIAL_HEAP_SIZE
    }
}

/// What putting the boxes in use back does to a heap. The others are all white.
pub open spec fn restored<D: CgcCompat>(before: HeapView<D>, after: HeapView<D>) -> bool {
    &&& blacken::same_boxes(before, after)
    &&& forall|p: usize| #[trigger]
        after.has(p) ==> after.header(p).color == before.header(p).color
    &&& forall|p: usize| #[trigger]
        before.detached.contains(p) ==> before.header(p).color == Color::White
    &&& after.chain == before.black + before.chain
    &&& after.detached == before.detached
    &&& after.black == Seq::<usize>::empty()
    &&& after.done == before.done
    &&& after.phase == (Phase::Sweep { head: before.phase->Blacken_head, freed: 0 })
}

/// What freeing the next box does to a heap.
pub open spec fn freed_next<D: CgcCompat>(before: HeapView<D>, after: HeapView<D>) -> bool {
    let node = before.phase->Sweep_head;
    &&& node == before.detached[0]
    &&& before.has(node)
    &&& !before.live(node)
    &&& after == (HeapView {
        headers: before.headers.update(node as int, None),
        payloads: before.payloads.update(node as int, None),
        detached: before.detached.remove(0),
        phase: Phase::Sweep {
            head: before.header(node).next,
            freed: (before.phase->freed + before.header(node).size) as usize,
        },
        ..before
    })
}

/// What accounting for the boxes that were freed does to a heap.
pub open spec fn accounted<D: CgcCompat>(before: HeapView<D>, after: HeapView<D>) -> bool {
    after == (HeapView {
        allocated: (before.allocated - before.phase->freed) as usize,
        phase: Phase::Idle,
        ..before
    })
}

impl<D: CgcCompat> Heap<D> {
    /// Puts the boxes that are in use back in front of those that were made since they were
    /// taken over. What is left is to be freed.
    pub fn restore(&mut self)
        requires
            old(self).wf(),
            old(self)@.phase is Blacken,
            old(self)@.phase->Blacken_at == NULL,
            !old(self)@.phase->saw_grays,
        ensures
            final(self).wf(),
            restored(old(self)@, final(self)@),
    {
        if let Phase::Blacken { head, before, at, black_head, black_tail, saw_grays } = self.phase {
            let ghost start = self@;
            proof {
                detached_is_white(start);
            }
            if black_tail != NULL {
                proof {
                    assert(start.black.contains(start.black[start.black.len() - 1]));
                    assert(start.has(black_tail));
                }
                let mut tail = self.headers.at(black_tail);
                tail.next = self.box_chain;
                self.headers.put(black_tail, tail);
                self.box_chain = black_head;
            }
            self.phase = Phase::Sweep { head, freed: 0 };
            proof {
                if start.black.len() > 0 {
                    let last = start.black[start.black.len() - 1];
                    assert(start.black.contains(last));
                    assert(start.has(last));
                }
                assert(black_tail == NULL ==> start.black.len() == 0);
                self.lists@.chain = start.black + start.chain;
                self.lists@.black = Seq::empty();
                restoring_keeps_wf(start, self@);
            }
        }
    }

    /// Frees the next box that is not in use, or, if there is none left, takes what was freed
    /// off what is allocated and ends the collection. Returns whether there was a box.
    pub fn sweep_next(&mut self) -> (visited: bool)
        requires
            old(self).wf(),
            old(self)@.phase is Sweep,
        ensures
            final(self).wf(),
            visited == (old(self)@.phase->Sweep_head != NULL),
            visited == (old(self)@.detached.len() > 0),
            !visited ==> accounted(old(self)@, final(self)@),
            visited ==> freed_next(old(self)@, final(self)@),
    {
        if let Phase::Sweep { head, freed } = self.phase {
            let ghost start = self@;
            proof {
                if start.detached.len() > 0 {
                    assert(start.detached.contains(start.detached[0]));
                    assert(start.has(start.detached[0]));
                }
            }
            if head == NULL {
                self.allocated = self.allocated - freed;
                self.phase = Phase::Idle;
                proof {
                    let after = self@;
                    assert forall|p: usize| #[trigger] after.has(p) && !after.doomed(
                        p,
                    ) implies model::has_all(after.headers, after.refs(p)) by {
                        assert(start.has(p));
                        assert(!start.doomed(p));
                    }
                    assert forall|p: usize| #[trigger] after.has(p) implies after.payload(
                        p,
                    ).flagged(false) by {
                        assert(start.has(p));
                    }
                    assert forall|p: usize| #![trigger after.has(p)]
                        p < after.headers.len() implies (after.has(p)
                        <==> after.payloads[p as int] is Some) by {
                        assert(start.has(p) == after.has(p));
                    }
                    lemmas::sorted_frame(start, after);
                }
                return false;
            }
            let node = self.headers.at(head);
            proof {
                lemmas::total_covers(start.headers, head as int);
                lemmas::total_update(start.headers, head as int, None);
                if start.live(head) {
                    laws::live_is_kept(start, head);
                }
            }
            self.headers.remove(head);
            self.vacant.push(head);
            self.phase = Phase::Sweep { head: node.next, freed: freed + node.size };
            self.payloads.set(head, None);
            proof {
                self.lists@.detached = self.lists@.detached.remove(0);
                swept(start, self@, head);
                assert forall|p: usize| #[trigger] self.vacant@.contains(p) <==> p
                    < self@.headers.len() && !self@.has(p) by {
                    let before = old(self).vacant@;
                    assert(self.vacant@ == before.push(head));
                    assert(before.contains(p) <==> p < start.headers.len() && !start.has(p));
                    if self.vacant@.contains(p) && p != head {
                        let i = choose|i: int|
                            0 <= i < self.vacant@.len() && self.vacant@[i] == p;
                        assert(before[i] == p);
                    }
                    if before.contains(p) {
                        let i = choose|i: int| 0 <= i < before.len() && before[i] == p;
                        assert(self.vacant@[i] == p);
                    }
                    assert(self.vacant@[before.len() as int] == head);
                }
                assert(!old(self).vacant@.contains(head));
            }
        }
        true
    }

    /// Sets how many bytes may be allocated before the next collection. `scaled` is seven tenths
    /// of what is allocated; at least what a new heap may allocate is granted.
    pub fn settle(&mut self, scaled: isize)
        requires
            old(self).wf(),
        ensures
            final(self).wf(),
            final(self)@ == (HeapView { heap_space: heap_space_after(scaled), ..old(self)@ }),
    {
        if scaled > INITIAL_HEAP_SIZE {
            self.heap_space = scaled;
        } else {
            self.heap_space = INITIAL_HEAP_SIZE;
        }
        proof {
            lemmas::wf_frame(old(self)@, self@);
        }
    }
}

/// Once a pass has met no gray box, all that is left is white.
pub(crate) proof fn detached_is_white<D: CgcCompat>(heap: HeapView<D>)
    requires
        heap.wf(),
        heap.phase is Blacken,
        heap.phase->Blacken_at == NULL,
        !heap.phase->saw_grays,
    ensures
        heap.done == heap.detached.len(),
        forall|p: usize| #[trigger]
            heap.detached.contains(p) ==> heap.header(p).color == Color::White,
{
    if heap.done < heap.detached.len() {
        assert(heap.detached.contains(heap.detached[heap.done]));
        assert(heap.has(heap.detached[heap.done]));
    }
    assert forall|p: usize| #[trigger] heap.detached.contains(p) implies heap.header(p).color
        == Color::White by {
        let i = choose|i: int| 0 <= i < heap.detached.len() && heap.detached[i] == p;
        assert(heap.header(heap.detached[i]).color != Color::Black);
        assert(!heap.gray_at(i));
    }
}

/// All that holds of the heap still holds once the boxes in use were put back.
#[verifier::spinoff_prover]
proof fn restoring_keeps_wf<D: CgcCompat>(start: HeapView<D>, after: HeapView<D>)
    requires
        start.wf(),
        start.phase is Blacken,
        forall|p: usize| #[trigger]
            start.detached.contains(p) ==> start.header(p).color == Color::White,
        after == (HeapView {
            headers: after.headers,
            box_chain: after.box_chain,
            chain: start.black + start.chain,
            black: Seq::empty(),
            phase: Phase::Sweep { head: start.phase->Blacken_head, freed: 0 },
            ..start
        }),
        start.black.len() == 0 ==> after.headers == start.headers && after.box_chain
            == start.box_chain,
        start.black.len() > 0 ==> after.box_chain == start.phase->black_head && after.headers
            == model::set_header(
            start.headers,
            start.black.last(),
            (CgcHeader { next: start.box_chain, ..start.header(start.black.last()) }),
        ),
    ensures
        after.wf(),
        blacken::same_boxes(start, after),
        forall|p: usize| #[trigger]
            after.has(p) ==> after.header(p).color == start.header(p).color,
{
    if start.black.len() > 0 {
        assert(start.black.contains(start.black[start.black.len() - 1]));
        assert(start.has(start.black.last()));
        lemmas::total_update(
            start.headers,
            start.black.last() as int,
            Some(CgcHeader { next: start.box_chain, ..start.header(start.black.last()) }),
        );
    }
    assert(forall|p: usize| #[trigger] after.has(p) <==> start.has(p));
    lemmas::filled_frame(start, after);
    assert forall|p: usize| #[trigger] after.chain.contains(p) <==> start.black.contains(p)
        || start.chain.contains(p) by {
        if after.chain.contains(p) {
            let i = choose|i: int| 0 <= i < after.chain.len() && after.chain[i] == p;
            if i < start.black.len() {
                assert(start.black[i] == p);
            } else {
                assert(start.chain[i - start.black.len()] == p);
            }
        }
        if start.black.contains(p) {
            let i = choose|i: int| 0 <= i < start.black.len() && start.black[i] == p;
            assert(after.chain[i] == p);
        }
        if start.chain.contains(p) {
            let i = choose|i: int| 0 <= i < start.chain.len() && start.chain[i] == p;
            assert(after.chain[start.black.len() + i] == p);
        }
    }
    assert(after.chain.no_duplicates()) by {
        assert forall|i: int, j: int|
            0 <= i < after.chain.len() && 0 <= j < after.chain.len() && i != j implies after.chain[i]
            != after.chain[j] by {
            let n = start.black.len();
            if i < n {
                assert(start.black.contains(start.black[i]));
            } else {
                assert(start.chain.contains(start.chain[i - n]));
            }
            if j < n {
                assert(start.black.contains(start.black[j]));
            } else {
                assert(start.chain.contains(start.chain[j - n]));
            }
        }
    }
    assert forall|p: usize| #[trigger] after.has(p) <==> after.chain.contains(p)
        || after.detached.contains(p) || after.black.contains(p) by {
        assert(start.has(p) <==> after.has(p));
    }
    assert(after.sorted_into_lists());
    // The links.
    assert forall|p: usize| #[trigger] start.chain.contains(p) implies after.has(p)
        && after.header(p).next == start.header(p).next by {
        assert(start.has(p));
    }
    lemmas::linked_frame(start.headers, after.headers, start.chain, start.box_chain);
    assert forall|p: usize| #[trigger] start.detached.contains(p) implies after.has(p)
        && after.header(p).next == start.header(p).next && after.header(p).color == Color::White
        && after.header(p).roots == 0 by {
        assert(start.has(p));
    }
    lemmas::linked_frame(
        start.headers,
        after.headers,
        start.detached,
        start.phase->Blacken_head,
    );
    if start.black.len() > 0 {
        assert forall|p: usize| #[trigger] model::has(after.headers, p) <==> model::has(
            start.headers,
            p,
        ) by {
            assert(start.has(p) <==> after.has(p));
        }
        lemmas::linked_concat(
            start.headers,
            after.headers,
            start.black,
            start.chain,
            start.phase->black_head,
            start.box_chain,
        );
    } else {
        assert(start.black + start.chain =~= start.chain);
    }
    out_of_reach(start, after);
}

/// What is to be freed is out of reach once the boxes in use were put back.
proof fn out_of_reach<D: CgcCompat>(start: HeapView<D>, after: HeapView<D>)
    requires
        start.sorted_into_lists(),
        start.marking(),
        forall|p: usize| #[trigger]
            start.detached.contains(p) ==> start.header(p).color == Color::White,
        after.payloads == start.payloads,
        after.detached == start.detached,
        forall|p: usize| #[trigger] after.has(p) <==> start.has(p),
    ensures
        forall|p: usize, i: int| #![trigger after.has(p), after.refs(p)[i]]
            after.has(p) && !after.detached.contains(p) && 0 <= i < after.refs(p).len()
                ==> !after.detached.contains(after.refs(p)[i]),
{
    assert forall|p: usize, i: int| #![trigger after.has(p), after.refs(p)[i]]
        after.has(p) && !after.detached.contains(p) && 0 <= i < after.refs(p).len() implies
        !after.detached.contains(after.refs(p)[i]) by {
        assert(start.has(p));
        assert(start.chain.contains(p) || start.black.contains(p));
        assert(start.spared(p));
        assert(start.header(start.refs(p)[i]).color != Color::White);
    }
}

/// All that holds of the heap still holds once the first box that is not in use was freed.
#[verifier::spinoff_prover]
proof fn swept<D: CgcCompat>(start: HeapView<D>, after: HeapView<D>, node: usize)
    requires
        start.wf(),
        start.phase is Sweep,
        start.detached.len() > 0,
        node == start.detached[0],
        start.has(node),
        start.phase->freed + start.header(node).size <= usize::MAX,
        after == (HeapView {
            headers: start.headers.update(node as int, None),
            payloads: start.payloads.update(node as int, None),
            detached: start.detached.remove(0),
            phase: Phase::Sweep {
                head: start.header(node).next,
                freed: (start.phase->freed + start.header(node).size) as usize,
            },
            ..start
        }),
    ensures
        after.wf(),
{
    assert(start.detached.contains(node));
    lemmas::total_update(start.headers, node as int, None);
    assert forall|p: usize| #[trigger] after.has(p) <==> start.has(p) && p != node by {}
    assert forall|p: usize| #[trigger] after.detached.contains(p) <==> start.detached.contains(p)
        && p != node by {
        if after.detached.contains(p) {
            let i = choose|i: int| 0 <= i < after.detached.len() && after.detached[i] == p;
            assert(start.detached[i + 1] == p);
        }
        if start.detached.contains(p) && p != node {
            let i = choose|i: int| 0 <= i < start.detached.len() && start.detached[i] == p;
            assert(after.detached[i - 1] == p);
        }
    }
    assert forall|p: usize| #[trigger] after.has(p) <==> after.chain.contains(p)
        || after.detached.contains(p) || after.black.contains(p) by {
        assert(start.has(p) <==> start.chain.contains(p) || start.detached.contains(p)
            || start.black.contains(p));
    }
    assert(after.sorted_into_lists());
    assert forall|p: usize| #[trigger] start.chain.contains(p) implies after.has(p)
        && after.header(p).next == start.header(p).next by {
        assert(start.has(p));
    }
    lemmas::linked_frame(start.headers, after.headers, start.chain, start.box_chain);
    assert(model::linked(after.headers, after.detached, after.phase->Sweep_head)) by {
        assert forall|i: int| 0 <= i < after.detached.len() implies model::has(
            after.headers,
            #[trigger] after.detached[i],
        ) && model::header_at(after.headers, after.detached[i]).next == model::first_of(
            after.detached,
            i + 1,
        ) by {
            assert(after.detached[i] == start.detached[i + 1]);
            assert(start.detached.contains(start.detached[i + 1]));
        }
        assert(start.header(start.detached[0]).next == model::first_of(start.detached, 1));
    }
    assert forall|p: usize| #[trigger] after.has(p) implies after.payload(p) == start.payload(p)
        && after.refs(p) == start.refs(p) && start.has(p) by {}
    assert forall|p: usize| #[trigger] after.has(p) && !after.doomed(p) implies model::has_all(
        after.headers,
        after.refs(p),
    ) by {
        assert(start.has(p) && !start.doomed(p));
        assert(model::has_all(start.headers, start.refs(p)));
        assert forall|i: int| 0 <= i < after.refs(p).len() implies model::has(
            after.headers,
            #[trigger] after.refs(p)[i],
        ) by {
            assert(start.has(start.refs(p)[i]));
            assert(!start.detached.contains(start.refs(p)[i]));
        }
    }
    assert forall|p: usize| #![trigger after.has(p)] p < after.headers.len() implies (after.has(p)
        <==> after.payloads[p as int] is Some) by {
        assert(start.has(p) <==> start.payloads[p as int] is Some);
    }
    assert forall|p: usize, i: int| #![trigger after.has(p), after.refs(p)[i]]
        after.has(p) && !after.detached.contains(p) && 0 <= i < after.refs(p).len() implies
        !after.detached.contains(after.refs(p)[i]) by {
        assert(start.has(p));
        assert(!start.detached.contains(start.refs(p)[i]));
    }
}

} // verus!
