use vstd::prelude::*;

use crate::compat::CgcCompat;
use crate::header::{CgcHeader, Color, NULL};
use crate::heap::{darken, Heap};
use crate::lemmas;
use crate::model;
use crate::model::HeapView;
use crate::phase::Phase;

verus! {

/// The color of the box at `p` after the box at `at` was visited: if that one was gray, it is
/// black now, and so is every white box that it reaches over white boxes.
pub open spec fn color_after_visit<D: CgcCompat>(
    heap: HeapView<D>,
    at: usize,
    p: usize,
) -> Color {
    if heap.header(at).color != Color::Gray {
        heap.header(p).color
    } else if p == at {
        Color::Black
    } else if heap.header(p).color == Color::White && model::reaches_white(
        heap.headers,
        heap.payloads,
        at,
        p,
    ) {
        Color::Black
    } else {
        heap.header(p).color
    }
}

/// Between the two heaps, boxes may have moved to another list and may have another color.
/// Nothing else has changed of what they hold.
pub open spec fn same_boxes<D: CgcCompat>(a: HeapView<D>, b: HeapView<D>) -> bool {
    &&& b.headers.len() == a.headers.len()
    &&& b.payloads == a.payloads
    &&& forall|p: usize| #[trigger] b.has(p) <==> a.has(p)
    &&& forall|p: usize| #[trigger]
        b.has(p) ==> b.header(p) == (CgcHeader {
            color: b.header(p).color,
            next: b.header(p).next,
            ..a.header(p)
        })
    &&& b.allocated == a.allocated
    &&& b.heap_space == a.heap_space
    &&& b.collecting == a.collecting
}

/// What taking over all boxes does to a heap.
pub open spec fn taken_over<D: CgcCompat>(before: HeapView<D>, after: HeapView<D>) -> bool {
    after == (HeapView {
        box_chain: NULL,
        chain: Seq::empty(),
        detached: before.chain,
        done: 0,
        phase: Phase::Blacken {
            head: before.box_chain,
            before: NULL,
            at: before.box_chain,
            black_head: NULL,
            black_tail: NULL,
            saw_grays: false,
        },
        ..before
    })
}

/// What starting another pass over the boxes that were taken over does to a heap.
pub open spec fn passed_again<D: CgcCompat>(before: HeapView<D>, after: HeapView<D>) -> bool {
    after == (HeapView {
        phase: Phase::Blacken {
            head: before.phase->Blacken_head,
            before: NULL,
            at: before.phase->Blacken_head,
            black_head: before.phase->black_head,
            black_tail: before.phase->black_tail,
            saw_grays: false,
        },
        done: 0,
        ..before
    })
}

/// What visiting the next box does to a heap: a white one is passed, and any other is moved to
/// the black list.
pub open spec fn visited_next<D: CgcCompat>(before: HeapView<D>, after: HeapView<D>) -> bool {
    let at = before.phase->Blacken_at;
    &&& before.has(at)
    &&& before.detached[before.done] == at
    &&& before.header(at).color == Color::White ==> after == (HeapView {
        phase: Phase::Blacken {
            head: before.phase->Blacken_head,
            before: at,
            at: before.header(at).next,
            black_head: before.phase->black_head,
            black_tail: before.phase->black_tail,
            saw_grays: before.phase->saw_grays,
        },
        done: before.done + 1,
        ..before
    })
    &&& before.header(at).color != Color::White ==> {
        &&& same_boxes(before, after)
        &&& forall|p: usize| #[trigger]
            after.has(p) ==> after.header(p).color == color_after_visit(before, at, p)
        &&& after.chain == before.chain
        &&& after.box_chain == before.box_chain
        &&& after.detached == before.detached.remove(before.done)
        &&& after.black == seq![at] + before.black
        &&& after.done == before.done
        &&& after.phase is Blacken
        &&& after.phase->saw_grays == (before.phase->saw_grays || before.header(at).color
            == Color::Gray)
    }
}

impl<D: CgcCompat> Heap<D> {
    /// Takes over all boxes that there are, to find out which of them are in use. A box that is
    /// made from now on is not among them.
    pub fn detach(&mut self)
        requires
            old(self).wf(),
            old(self)@.phase == (Phase::Whiten { at: NULL }),
        ensures
            final(self).wf(),
            taken_over(old(self)@, final(self)@),
    {
        let head: usize = self.box_chain;
        self.box_chain = NULL;
        self.phase = Phase::Blacken {
            head,
            before: NULL,
            at: head,
            black_head: NULL,
            black_tail: NULL,
            saw_grays: false,
        };
        proof {
            let before = old(self)@;
            self.lists@.detached = self.lists@.chain;
            self.lists@.chain = Seq::empty();
            self.lists@.done = 0;
            let after = self@;
            lemmas::filled_frame(before, after);
            assert forall|p: usize| #[trigger] after.has(p) <==> after.chain.contains(p)
                || after.detached.contains(p) || after.black.contains(p) by {
                assert(before.has(p) == after.has(p));
            }
            assert(before.done == before.chain.len()) by {
                if before.done < before.chain.len() {
                    assert(before.chain.contains(before.chain[before.done]));
                    assert(before.has(before.chain[before.done]));
                }
            }
            assert forall|p: usize| #[trigger] after.has(p) implies before.whitened(p) by {
                assert(before.has(p));
                let i = choose|i: int| 0 <= i < before.chain.len() && before.chain[i] == p;
                assert(before.whitened(before.chain[i]));
            }
            assert(after.marking());
        }
    }

    /// Visits the next box, or starts another pass over the boxes if this one has come to its
    /// end and has met a gray box. Returns whether there was anything to do; if not, every box
    /// that was taken over and not moved to the black list is white.
    pub fn blacken_next(&mut self) -> (visited: bool)
        requires
            old(self).wf(),
            old(self)@.phase is Blacken,
        ensures
            final(self).wf(),
            visited == (old(self)@.phase->Blacken_at != NULL || old(self)@.phase->saw_grays),
            !visited ==> final(self)@ == old(self)@,
            visited && old(self)@.phase->Blacken_at == NULL ==> passed_again(
                old(self)@,
                final(self)@,
            ),
            visited && old(self)@.phase->Blacken_at != NULL ==> visited_next(
                old(self)@,
                final(self)@,
            ),
    {
        if let Phase::Blacken { head, before, at, black_head, black_tail, saw_grays } = self.phase {
            if at == NULL {
                if saw_grays {
                    self.phase = Phase::Blacken {
                        head,
                        before: NULL,
                        at: head,
                        black_head,
                        black_tail,
                        saw_grays: false,
                    };
                    proof {
                        self.lists@.done = 0;
                        lemmas::filled_frame(old(self)@, self@);
                        lemmas::sorted_frame(old(self)@, self@);
                        lemmas::marking_frame(old(self)@, self@);
                    }
                }
                return saw_grays;
            }
            proof {
                assert(self@.detached[self@.done] == at);
                assert(self@.detached.contains(at));
                assert(self@.has(at));
            }
            let header = self.headers.at(at);
            if header.color == Color::White {
                self.phase = Phase::Blacken {
                    head,
                    before: at,
                    at: header.next,
                    black_head,
                    black_tail,
                    saw_grays,
                };
                proof {
                    self.lists@.done = self.lists@.done + 1;
                    lemmas::filled_frame(old(self)@, self@);
                    lemmas::sorted_frame(old(self)@, self@);
                    lemmas::marking_frame(old(self)@, self@);
                    if !saw_grays {
                        pass_white(old(self)@, self@);
                    }
                }
                return true;
            }
            self.blacken_box(header);
        }
        true
    }

    /// Visits a box that is not white: if it is gray, it is blackened, with what it reaches. It
    /// moves to the black list.
    #[verifier::spinoff_prover]
    fn blacken_box(&mut self, header: CgcHeader)
        requires
            old(self).wf(),
            old(self)@.phase is Blacken,
            old(self)@.phase->Blacken_at != NULL,
            old(self)@.has(old(self)@.phase->Blacken_at),
            header == old(self)@.header(old(self)@.phase->Blacken_at),
            header.color != Color::White,
        ensures
            final(self).wf(),
            same_boxes(old(self)@, final(self)@),
            forall|p: usize| #[trigger]
                final(self)@.has(p) ==> final(self)@.header(p).color == color_after_visit(
                    old(self)@,
                    old(self)@.phase->Blacken_at,
                    p,
                ),
            final(self)@.chain == old(self)@.chain,
            final(self)@.box_chain == old(self)@.box_chain,
            final(self)@.detached == old(self)@.detached.remove(old(self)@.done),
            final(self)@.black == seq![old(self)@.phase->Blacken_at] + old(self)@.black,
            final(self)@.done == old(self)@.done,
            final(self)@.phase is Blacken,
            final(self)@.phase->saw_grays == (old(self)@.phase->saw_grays || header.color
                == Color::Gray),
    {
        if let Phase::Blacken { head, before, at, black_head, black_tail, saw_grays } = self.phase {
            let ghost start = self@;
            let gray: bool = header.color == Color::Gray;
            if gray {
                let mut blackened = header;
                blackened.color = Color::Black;
                self.headers.put(at, blackened);
                proof {
                    closed_after_put(start, self@.headers, at);
                }
                darken::darken_from(&mut self.headers, &self.payloads, at);
            }
            let ghost colored = self@;
            proof {
                if gray {
                    let put = model::set_header(
                        start.headers,
                        at,
                        CgcHeader { color: Color::Black, ..header },
                    );
                    colors_after_visit(start, put, colored, at);
                } else {
                    assert forall|p: usize| #[trigger] colored.has(p) implies colored.header(p)
                        == (CgcHeader {
                        color: color_after_visit(start, at, p),
                        ..start.header(p)
                    }) by {}
                }
            }
            let next: usize = header.next;
            let mut new_head: usize = head;
            if before == NULL {
                new_head = next;
            } else {
                proof {
                    assert(start.detached.contains(start.detached[start.done - 1]));
                    assert(start.has(before));
                    assert(colored.has(before));
                }
                let mut previous = self.headers.at(before);
                previous.next = next;
                self.headers.put(before, previous);
            }
            proof {
                assert(colored.has(at));
            }
            let mut moved = self.headers.at(at);
            moved.next = black_head;
            self.headers.put(at, moved);
            let mut new_tail: usize = black_tail;
            if black_tail == NULL {
                new_tail = at;
            }
            self.phase = Phase::Blacken {
                head: new_head,
                before,
                at: next,
                black_head: at,
                black_tail: new_tail,
                saw_grays: saw_grays || gray,
            };
            proof {
                self.lists@.detached = self.lists@.detached.remove(self.lists@.done);
                self.lists@.black = seq![at] + self.lists@.black;
                let after = self@;
                assert forall|p: usize| #[trigger] after.has(p) <==> start.has(p) by {
                    assert(colored.has(p) <==> start.has(p));
                }
                assert forall|p: usize| #[trigger] after.has(p) implies after.header(p) == (
                CgcHeader { next: after.header(p).next, ..colored.header(p) }) && (p != at && p
                    != before ==> after.header(p) == colored.header(p)) && colored.header(p).next
                    == start.header(p).next && after.header(p).color == color_after_visit(
                    start,
                    at,
                    p,
                ) by {
                    assert(colored.has(p));
                }
                assert forall|p: usize| #[trigger] after.has(p) implies after.header(p) == (
                CgcHeader {
                    color: after.header(p).color,
                    next: after.header(p).next,
                    ..start.header(p)
                }) by {
                    assert(colored.has(p));
                }
                assert(same_boxes(start, after));
                lemmas::filled_frame(start, colored);
                lemmas::sorted_frame(start, colored);
                if !saw_grays && !gray {
                    pass_black(start, self@);
                }
                moved_to_black(start, colored, self@, at);
            }
        }
    }
}

/// All that holds of the heap still holds once the box that the pass has come to was moved to
/// the black list.
#[verifier::spinoff_prover]
proof fn moved_to_black<D: CgcCompat>(
    start: HeapView<D>,
    colored: HeapView<D>,
    after: HeapView<D>,
    at: usize,
)
    requires
        start.wf(),
        start.phase is Blacken,
        0 <= start.done < start.detached.len(),
        at == start.detached[start.done],
        colored == (HeapView { headers: colored.headers, ..start }),
        colored.filled(),
        colored.sorted_into_lists(),
        colored.marking(),
        colored.headers.len() == start.headers.len(),
        forall|p: usize| #[trigger] colored.has(p) <==> start.has(p),
        forall|p: usize| #[trigger]
            colored.has(p) ==> colored.header(p) == (CgcHeader {
                color: colored.header(p).color,
                ..start.header(p)
            }),
        colored.header(at).color == Color::Black,
        after.headers.len() == start.headers.len(),
        after == (HeapView {
            headers: after.headers,
            detached: start.detached.remove(start.done),
            black: seq![at] + start.black,
            phase: after.phase,
            ..start
        }),
        forall|p: usize| #[trigger] after.has(p) <==> start.has(p),
        forall|p: usize| #[trigger]
            after.has(p) ==> after.header(p) == (CgcHeader {
                next: after.header(p).next,
                ..colored.header(p)
            }),
        forall|p: usize| #[trigger]
            after.has(p) && p != at && (start.done > 0 ==> p != start.detached[start.done - 1])
                ==> after.header(p).next == start.header(p).next,
        start.done > 0 ==> after.header(start.detached[start.done - 1]).next == start.header(
            at,
        ).next,
        after.header(at).next == start.phase->black_head,
        after.phase == (Phase::Blacken {
            head: if start.done == 0 {
                start.header(at).next
            } else {
                start.phase->Blacken_head
            },
            before: start.phase->before,
            at: start.header(at).next,
            black_head: at,
            black_tail: if start.black.len() == 0 {
                at
            } else {
                start.phase->black_tail
            },
            saw_grays: after.phase->saw_grays,
        }),
        !after.phase->saw_grays ==> after.passing(),
    ensures
        after.wf(),
{
    let i = start.done;
    assert(start.detached.contains(at));
    assert(start.has(at));
    assert(!start.black.contains(at) && !start.chain.contains(at));
    if i > 0 {
        assert(start.detached.contains(start.detached[i - 1]));
        assert(start.has(start.detached[i - 1]));
    }
    lemmas::filled_frame(start, after);
    moved_lists(start, after, at);
    assert forall|p: usize| #[trigger] start.chain.contains(p) implies after.has(p)
        && after.header(p).next == start.header(p).next by {
        assert(start.has(p));
        assert(after.has(p));
    }
    lemmas::linked_frame(start.headers, after.headers, start.chain, start.box_chain);
    assert forall|p: usize| #[trigger]
        start.detached.contains(p) && p != start.detached[i] && (i > 0 ==> p != start.detached[i
            - 1]) implies model::header_at(after.headers, p).next == model::header_at(
        start.headers,
        p,
    ).next by {
        assert(start.has(p));
        assert(after.has(p));
    }
    assert forall|p: usize| #[trigger] model::has(after.headers, p) <==> model::has(
        start.headers,
        p,
    ) by {
        assert(after.has(p) <==> start.has(p));
    }
    lemmas::linked_remove(
        start.headers,
        after.headers,
        start.detached,
        i,
        start.phase->Blacken_head,
        after.phase->Blacken_head,
    );
    assert forall|p: usize| #[trigger] start.black.contains(p) implies after.has(p)
        && after.header(p).next == start.header(p).next by {
        assert(start.has(p));
        assert(after.has(p));
    }
    lemmas::linked_frame(
        start.headers,
        after.headers,
        start.black,
        start.phase->black_head,
    );
    lemmas::linked_front(after.headers, start.black, start.phase->black_head, at);
    moved_marking(start, colored, after, at);
    assert forall|j: int| 0 <= j < after.headers.len() implies lemmas::weight(
        #[trigger] after.headers[j],
    ) == lemmas::weight(start.headers[j]) by {
        let p = j as usize;
        assert(after.has(p) <==> start.has(p));
        assert(colored.has(p) <==> start.has(p));
    }
    lemmas::total_same(after.headers, start.headers);
}

/// The boxes are sorted into lists once the box that the pass has come to was moved to the black
/// list.
proof fn moved_lists<D: CgcCompat>(start: HeapView<D>, after: HeapView<D>, at: usize)
    requires
        start.sorted_into_lists(),
        0 <= start.done < start.detached.len(),
        at == start.detached[start.done],
        after.chain == start.chain,
        after.detached == start.detached.remove(start.done),
        after.black == seq![at] + start.black,
        forall|p: usize| #[trigger] after.has(p) <==> start.has(p),
    ensures
        after.sorted_into_lists(),
        forall|p: usize| #[trigger]
            after.black.contains(p) <==> start.black.contains(p) || p == at,
{
    let i = start.done;
    assert(start.detached.contains(at));
    assert(!start.black.contains(at) && !start.chain.contains(at));
    assert forall|p: usize| #[trigger] after.detached.contains(p) <==> start.detached.contains(p)
        && p != at by {
        if after.detached.contains(p) {
            let j = choose|j: int| 0 <= j < after.detached.len() && after.detached[j] == p;
            let k = if j < i {
                j
            } else {
                j + 1
            };
            assert(start.detached[k] == p);
        }
        if start.detached.contains(p) && p != at {
            let k = choose|k: int| 0 <= k < start.detached.len() && start.detached[k] == p;
            let j = if k < i {
                k
            } else {
                k - 1
            };
            assert(after.detached[j] == p);
        }
    }
    assert forall|p: usize| #[trigger] after.black.contains(p) <==> start.black.contains(p) || p
        == at by {
        if after.black.contains(p) {
            let j = choose|j: int| 0 <= j < after.black.len() && after.black[j] == p;
            if j > 0 {
                assert(start.black[j - 1] == p);
            }
        }
        if start.black.contains(p) {
            let k = choose|k: int| 0 <= k < start.black.len() && start.black[k] == p;
            assert(after.black[k + 1] == p);
        }
        assert(after.black[0] == at);
    }
    assert(after.detached.no_duplicates());
    assert(after.black.no_duplicates()) by {
        assert forall|j: int, k: int|
            0 <= j < after.black.len() && 0 <= k < after.black.len() && j != k implies after.black[j]
            != after.black[k] by {
            if j > 0 {
                assert(after.black[j] == start.black[j - 1]);
                assert(start.black.contains(start.black[j - 1]));
            }
            if k > 0 {
                assert(after.black[k] == start.black[k - 1]);
                assert(start.black.contains(start.black[k - 1]));
            }
        }
    }
    assert forall|p: usize| #[trigger] after.has(p) <==> after.chain.contains(p)
        || after.detached.contains(p) || after.black.contains(p) by {
        assert(start.has(p) <==> after.has(p));
    }
}

/// No box in use can be missed once the box that the pass has come to was moved to the black
/// list.
#[verifier::spinoff_prover]
proof fn moved_marking<D: CgcCompat>(
    start: HeapView<D>,
    colored: HeapView<D>,
    after: HeapView<D>,
    at: usize,
)
    requires
        start.filled(),
        start.sorted_into_lists(),
        start.phase is Blacken,
        start.has(at),
        colored.payloads == start.payloads,
        colored.chain == start.chain,
        colored.black == start.black,
        colored.marking(),
        forall|p: usize| #[trigger] colored.has(p) <==> start.has(p),
        colored.header(at).color == Color::Black,
        after.payloads == start.payloads,
        after.chain == start.chain,
        forall|p: usize| #[trigger]
            after.black.contains(p) <==> start.black.contains(p) || p == at,
        forall|p: usize| #[trigger] after.has(p) <==> start.has(p),
        forall|p: usize| #[trigger]
            after.has(p) ==> after.header(p) == (CgcHeader {
                next: after.header(p).next,
                ..colored.header(p)
            }),
    ensures
        after.marking(),
{
    assert forall|p: usize| start.has(p) && colored.spared(p) implies #[trigger] after.spared(
        p,
    ) by {
        assert forall|j: int| 0 <= j < after.refs(p).len() implies after.header(
            #[trigger] after.refs(p)[j],
        ).color != Color::White by {
            assert(colored.header(colored.refs(p)[j]).color != Color::White);
            assert(model::has_all(start.headers, start.refs(p)));
            assert(start.has(start.refs(p)[j]));
            assert(after.has(start.refs(p)[j]));
        }
    }
    assert forall|p: usize| #[trigger] after.has(p) implies after.header(p).color
        == colored.header(p).color && after.header(p).roots == colored.header(p).roots
        && colored.has(p) by {
        assert(start.has(p));
    }
    assert forall|p: usize| #[trigger] after.chain.contains(p) implies after.header(p).color
        != Color::White && after.spared(p) by {
        assert(start.has(p));
        assert(after.has(p));
        assert(colored.chain.contains(p));
    }
    assert forall|p: usize| #[trigger] after.black.contains(p) implies after.header(p).color
        != Color::White && after.spared(p) by {
        assert(start.has(p));
        assert(after.has(p));
        if p != at {
            assert(colored.black.contains(p));
        } else {
            assert(colored.has(at));
            assert(colored.spared(at));
        }
    }
}

/// A pass that takes out a black box keeps what is known of the boxes that it has passed.
proof fn pass_black<D: CgcCompat>(a: HeapView<D>, b: HeapView<D>)
    requires
        a.passing(),
        0 <= a.done < a.detached.len(),
        a.header(a.detached[a.done]).color == Color::Black,
        b.detached == a.detached.remove(a.done),
        b.done == a.done,
        forall|i: int|
            0 <= i < a.detached.len() ==> b.header(#[trigger] a.detached[i]).color == a.header(
                a.detached[i],
            ).color,
    ensures
        b.passing(),
{
    assert forall|i: int| 0 <= i < b.done implies b.header(#[trigger] b.detached[i]).color
        != Color::Black by {
        assert(b.detached[i] == a.detached[i]);
    }
    if exists|i: int| 0 <= i < b.done && #[trigger] b.gray_at(i) {
        let i = choose|i: int| 0 <= i < b.done && #[trigger] b.gray_at(i);
        assert(b.detached[i] == a.detached[i]);
        assert(a.gray_at(i));
        let j = choose|j: int| a.done <= j < a.detached.len() && #[trigger] a.gray_at(j);
        assert(b.detached[j - 1] == a.detached[j]);
        assert(b.gray_at(j - 1));
    }
}

/// The values still fit the boxes after one header was replaced.
proof fn closed_after_put<D: CgcCompat>(
    heap: HeapView<D>,
    slots: Seq<Option<CgcHeader>>,
    at: usize,
)
    requires
        heap.filled(),
        !(heap.phase is Sweep),
        heap.has(at),
        slots.len() == heap.headers.len(),
        forall|p: usize| #[trigger] model::has(slots, p) <==> heap.has(p),
    ensures
        model::closed_under_refs(slots, heap.payloads),
{
    assert forall|p: usize| #[trigger] model::has(slots, p) implies p < heap.payloads.len()
        && heap.payloads[p as int] is Some && model::has_all(
        slots,
        model::refs_at(heap.payloads, p),
    ) by {
        assert(heap.has(p));
        let refs = heap.refs(p);
        assert(model::has_all(heap.headers, refs));
        assert forall|i: int| 0 <= i < refs.len() implies model::has(slots, #[trigger] refs[i]) by {
            assert(heap.has(refs[i]));
        }
    }
}

/// What darkening from a gray box has done to the colors, and that no box in use can be missed
/// afterwards either.
proof fn colors_after_visit<D: CgcCompat>(
    a: HeapView<D>,
    put: Seq<Option<CgcHeader>>,
    b: HeapView<D>,
    at: usize,
)
    requires
        a.filled(),
        a.sorted_into_lists(),
        !(a.phase is Sweep),
        a.marking(),
        a.has(at),
        a.header(at).color == Color::Gray,
        put == model::set_header(
            a.headers,
            at,
            (CgcHeader { color: Color::Black, ..a.header(at) }),
        ),
        b == (HeapView { headers: b.headers, ..a }),
        darken::darker(put, b.headers),
        forall|p: usize| #[trigger]
            model::has(put, p) && model::header_at(put, p).color == Color::White ==> (
            darken::blackened(put, b.headers, p) <==> model::reaches_white(
                put,
                a.payloads,
                at,
                p,
            )),
        forall|p: usize| #[trigger]
            darken::blackened(put, b.headers, p) ==> darken::spared(b.headers, a.payloads, p),
        darken::spared(b.headers, a.payloads, at),
    ensures
        b.headers.len() == a.headers.len(),
        forall|p: usize| #[trigger] b.has(p) <==> a.has(p),
        forall|p: usize| #[trigger]
            b.has(p) ==> b.header(p) == (CgcHeader {
                color: color_after_visit(a, at, p),
                ..a.header(p)
            }),
        b.marking(),
{
    assert forall|p: usize| #[trigger] b.has(p) <==> a.has(p) by {
        assert(model::has(b.headers, p) <==> model::has(put, p));
    }
    assert forall|p: usize|
        model::reaches_white(put, a.payloads, at, p) <==> #[trigger] model::reaches_white(
            a.headers,
            a.payloads,
            at,
            p,
        ) by {
        if model::reaches_white(put, a.payloads, at, p) {
            let path = choose|path: Seq<usize>| #[trigger]
                model::is_path(a.payloads, path) && path.len() > 1 && path.first() == at
                    && path.last() == p && model::all_white_after(put, path);
            assert(model::all_white_after(a.headers, path));
        }
        if model::reaches_white(a.headers, a.payloads, at, p) {
            let path = choose|path: Seq<usize>| #[trigger]
                model::is_path(a.payloads, path) && path.len() > 1 && path.first() == at
                    && path.last() == p && model::all_white_after(a.headers, path);
            assert(model::all_white_after(put, path));
        }
    }
    assert forall|p: usize| #[trigger] b.has(p) implies b.header(p) == (CgcHeader {
        color: color_after_visit(a, at, p),
        ..a.header(p)
    }) by {
        assert(model::has(put, p));
        assert(model::reaches_white(put, a.payloads, at, p) <==> model::reaches_white(
            a.headers,
            a.payloads,
            at,
            p,
        ));
    }
    assert forall|p: usize| a.has(p) && a.spared(p) implies #[trigger] b.spared(p) by {
        assert forall|i: int| 0 <= i < b.refs(p).len() implies b.header(
            #[trigger] b.refs(p)[i],
        ).color != Color::White by {
            assert(a.header(a.refs(p)[i]).color != Color::White);
            assert(model::has_all(a.headers, a.refs(p)));
            assert(a.has(a.refs(p)[i]));
            assert(b.has(b.refs(p)[i]));
        }
    }
    assert forall|p: usize| darken::spared(b.headers, a.payloads, p) implies #[trigger] b.spared(
        p,
    ) by {
        assert forall|i: int| 0 <= i < b.refs(p).len() implies b.header(
            #[trigger] b.refs(p)[i],
        ).color != Color::White by {
            assert(model::header_at(b.headers, model::refs_at(a.payloads, p)[i]).color
                != Color::White);
        }
    }
    assert forall|p: usize| #[trigger] b.has(p) && b.header(p).roots > 0 implies b.header(p).color
        != Color::White by {
        assert(a.has(p));
    }
    assert forall|p: usize| #[trigger] b.chain.contains(p) implies b.header(p).color
        != Color::White && b.spared(p) by {
        assert(a.has(p));
        assert(b.has(p));
    }
    assert forall|p: usize| #[trigger] b.black.contains(p) implies b.header(p).color
        != Color::White && b.spared(p) by {
        assert(a.has(p));
        assert(b.has(p));
    }
    assert forall|p: usize| #[trigger] b.has(p) && b.header(p).color == Color::Black implies
        b.spared(p) by {
        assert(a.has(p));
        assert(model::has(put, p));
        if p != at && a.header(p).color != Color::Black {
            assert(darken::blackened(put, b.headers, p));
        }
    }
}

/// A pass that goes past a white box keeps what is known of the boxes that it has passed.
proof fn pass_white<D: CgcCompat>(a: HeapView<D>, b: HeapView<D>)
    requires
        a.passing(),
        0 <= a.done < a.detached.len(),
        a.header(a.detached[a.done]).color == Color::White,
        b.headers == a.headers,
        b.detached == a.detached,
        b.done == a.done + 1,
    ensures
        b.passing(),
{
    if exists|i: int| 0 <= i < b.done && #[trigger] b.gray_at(i) {
        let i = choose|i: int| 0 <= i < b.done && #[trigger] b.gray_at(i);
        assert(a.gray_at(i));
        let j = choose|j: int| a.done <= j < a.detached.len() && #[trigger] a.gray_at(j);
        assert(b.gray_at(j));
    }
}

} // verus!
