use vstd::prelude::*;

use crate::compat::CgcCompat;
use crate::header::{CgcHeader, Color, NULL};
use crate::heap::{blacken, darken, step, sweep, whiten, Heap};
use crate::laws;
use crate::lemmas;
use crate::model;
use crate::model::HeapView;
use crate::phase::Phase;

verus! {

/// A gray box that was taken over reaches the box at `p` over white boxes.
pub open spec fn reached_from_gray<D: CgcCompat>(heap: HeapView<D>, p: usize) -> bool {
    exists|gray: usize| #[trigger]
        heap.detached.contains(gray) && heap.header(gray).color == Color::Gray
            && model::reaches_white(heap.headers, heap.payloads, gray, p)
}

/// The color of the box at `p` once the boxes that were taken over have been darkened: one that
/// is in use is black, and any other keeps its color.
pub open spec fn color_after_blacken<D: CgcCompat>(heap: HeapView<D>, p: usize) -> Color {
    if heap.detached.contains(p) && (heap.header(p).color != Color::White || reached_from_gray(
        heap,
        p,
    )) {
        Color::Black
    } else {
        heap.header(p).color
    }
}

impl<D: CgcCompat> Heap<D> {
    /// Gives every box the color that it starts with: gray if it has a root, and white if not.
    pub fn whiten(&mut self)
        requires
            old(self).wf(),
            old(self)@.phase is Idle,
        ensures
            final(self).wf(),
            final(self)@ == (HeapView {
                headers: final(self)@.headers,
                phase: Phase::Whiten { at: NULL },
                done: old(self)@.chain.len() as int,
                ..old(self)@
            }),
            final(self)@.headers.len() == old(self)@.headers.len(),
            forall|p: usize| #[trigger] final(self)@.has(p) <==> old(self)@.has(p),
            forall|p: usize| #[trigger]
                final(self)@.has(p) ==> final(self)@.header(p) == whiten::whitened(
                    old(self)@.header(p),
                ),
            step::runs_to(old(self)@, final(self)@),
    {
        let ghost start = self@;
        proof {
            self.wf_view();
            step::run_of_one(start);
        }
        self.begin();
        proof {
            self.wf_view();
            step::run_on(start, start, self@);
            assert(forall|p: usize| #[trigger] self@.has(p) <==> start.has(p));
        }
        let mut more: bool = true;
        while more
            invariant
                start.wf(),
                start.phase is Idle,
                self.wf(),
                whitening(start, self@),
                step::runs_to(start, self@),
                !more ==> self@.phase == (Phase::Whiten { at: NULL }),
            decreases start.chain.len() - self@.done, more as int,
        {
            let ghost before = self@;
            proof {
                self.wf_view();
            }
            more = self.whiten_next();
            proof {
                if more {
                    self.wf_view();
                    whitening_step(start, before, self@);
                    step::run_on(start, before, self@);
                }
            }
        }
        proof {
            self.wf_view();
            whitening_end(start, self@);
        }
    }

    /// Darkens everything that is in use among the boxes that were taken over, pass after pass
    /// until one has met no gray box, and moves it to the black list.
    pub fn blacken(&mut self)
        requires
            old(self).wf(),
            old(self)@.phase is Blacken,
        ensures
            final(self).wf(),
            blacken::same_boxes(old(self)@, final(self)@),
            final(self)@.chain == old(self)@.chain,
            final(self)@.box_chain == old(self)@.box_chain,
            final(self)@.phase is Blacken,
            final(self)@.phase->Blacken_at == NULL,
            !final(self)@.phase->saw_grays,
            forall|p: usize| #[trigger]
                final(self)@.has(p) ==> final(self)@.header(p).color == color_after_blacken(
                    old(self)@,
                    p,
                ),
            forall|p: usize| #[trigger]
                final(self)@.detached.contains(p) <==> old(self)@.detached.contains(p)
                    && color_after_blacken(old(self)@, p) == Color::White,
            step::runs_to(old(self)@, final(self)@),
    {
        let ghost start = self@;
        proof {
            self.wf_view();
            step::run_of_one(start);
        }
        let mut more: bool = true;
        while more
            invariant
                start.wf(),
                start.phase is Blacken,
                self.wf(),
                self@.phase is Blacken,
                blackening(start, self@),
                step::runs_to(start, self@),
                !more ==> self@.phase->Blacken_at == NULL && !self@.phase->saw_grays,
            decreases
                    self@.detached.len(),
                    self@.phase->saw_grays as int,
                    self@.detached.len() - self@.done,
                    more as int,
        {
            let ghost before = self@;
            proof {
                self.wf_view();
            }
            more = self.blacken_next();
            proof {
                if more {
                    self.wf_view();
                    blackening_next(start, before, self@);
                    step::run_on(start, before, self@);
                }
            }
        }
        proof {
            self.wf_view();
            blackening_end(start, self@);
        }
    }

    /// Frees every box that is not in use, and takes what was freed off what is allocated.
    pub fn sweep(&mut self)
        requires
            old(self).wf(),
            old(self)@.phase is Sweep,
        ensures
            final(self).wf(),
            final(self)@ == (HeapView {
                headers: final(self)@.headers,
                payloads: final(self)@.payloads,
                detached: Seq::empty(),
                allocated: final(self)@.allocated,
                phase: Phase::Idle,
                ..old(self)@
            }),
            final(self)@.headers.len() == old(self)@.headers.len(),
            forall|p: usize| #[trigger]
                final(self)@.has(p) <==> old(self)@.has(p) && !old(self)@.detached.contains(p),
            forall|p: usize| #[trigger]
                final(self)@.has(p) ==> final(self)@.header(p) == old(self)@.header(p)
                    && final(self)@.payload(p) == old(self)@.payload(p),
            step::ends_at(old(self)@, final(self)@),
    {
        let ghost start = self@;
        proof {
            self.wf_view();
            step::run_of_one(start);
        }
        let mut more: bool = true;
        while more
            invariant
                start.wf(),
                start.phase is Sweep,
                self.wf(),
                sweeping(start, self@),
                more ==> self@.phase is Sweep && step::runs_to(start, self@),
                !more ==> self@.phase is Idle && self@.detached.len() == 0 && step::ends_at(
                    start,
                    self@,
                ),
            decreases self@.detached.len(), more as int,
        {
            let ghost before = self@;
            proof {
                self.wf_view();
            }
            more = self.sweep_next();
            proof {
                self.wf_view();
                if more {
                    sweeping_step(start, before, self@);
                    step::run_on(start, before, self@);
                } else {
                    sweeping_end(start, before, self@);
                }
            }
        }
        proof {
            assert(self@.detached =~= Seq::empty());
        }
    }

    /// Collects the boxes that are not in use, from beginning to end: exactly those are freed
    /// that no box with a root reaches. Then `scale`, which gives seven tenths of what is still
    /// allocated, decides how much may be allocated before the next collection.
    pub fn do_collect_garbage<F: Fn(usize) -> isize>(&mut self, scale: F)
        requires
            old(self).wf(),
            old(self)@.phase is Idle,
            forall|allocated: usize| call_requires(scale, (allocated,)),
        ensures
            final(self).wf(),
            step::ran(
                old(self)@,
                (HeapView { heap_space: old(self)@.heap_space, ..final(self)@ }),
            ),
            collected(old(self)@, final(self)@),
            final(self)@.collecting == old(self)@.collecting,
            exists|scaled: isize| #[trigger]
                call_ensures(scale, (final(self)@.allocated,), scaled) && final(self)@.heap_space
                    == sweep::heap_space_after(scaled),
    {
        let ghost start = self@;
        proof {
            self.wf_view();
        }
        self.whiten();
        let ghost white = self@;
        self.detach();
        let ghost taken = self@;
        proof {
            self.wf_view();
            step::run_on(start, white, taken);
        }
        self.blacken();
        let ghost marked = self@;
        proof {
            step::run_through(start, taken, marked);
        }
        self.restore();
        let ghost restored = self@;
        proof {
            self.wf_view();
            step::run_on(start, marked, restored);
        }
        self.sweep();
        let ghost swept = self@;
        proof {
            let last = choose|last: HeapView<D>| #[trigger]
                step::runs_to(restored, last) && step::stepped(last, swept, false) && swept.wf();
            step::run_through(start, restored, last);
            assert(step::ran(start, swept));
            all_steps_collect(start, swept);
        }
        let scaled: isize = scale(self.allocated);
        self.settle(scaled);
        proof {
            let after = self@;
            assert((HeapView { heap_space: start.heap_space, ..after }) == swept);
            collected_frame(start, swept, after);
        }
    }

    /// Collects the boxes that are not in use and ends the collection that was started.
    pub fn collect_garbage<F: Fn(usize) -> isize>(&mut self, scale: F)
        requires
            old(self).wf(),
            old(self)@.phase is Idle,
            forall|allocated: usize| call_requires(scale, (allocated,)),
        ensures
            final(self).wf(),
            step::ran(
                old(self)@,
                (HeapView {
                    heap_space: old(self)@.heap_space,
                    collecting: old(self)@.collecting,
                    ..final(self)@
                }),
            ),
            collected(old(self)@, final(self)@),
            !final(self)@.collecting,
            exists|scaled: isize| #[trigger]
                call_ensures(scale, (final(self)@.allocated,), scaled) && final(self)@.heap_space
                    == sweep::heap_space_after(scaled),
    {
        self.do_collect_garbage(scale);
        let ghost done = self@;
        self.end_collection();
        proof {
            collected_frame(old(self)@, done, self@);
        }
    }

    /// Ends the collection that was started, so that another one can be.
    pub fn end_collection(&mut self)
        requires
            old(self).wf(),
        ensures
            final(self).wf(),
            final(self)@ == (HeapView { collecting: false, ..old(self)@ }),
    {
        self.collecting = false;
        proof {
            lemmas::wf_frame(old(self)@, self@);
        }
    }

    /// Starts a collection. Fails if one has been started and has not ended.
    pub fn force_collection(&mut self) -> (started: Result<(), ()>)
        requires
            old(self).wf(),
        ensures
            final(self).wf(),
            started is Ok <==> !old(self)@.collecting,
            final(self)@ == (HeapView { collecting: true, ..old(self)@ }),
    {
        if self.collecting {
            Err(())
        } else {
            self.collecting = true;
            proof {
                lemmas::wf_frame(old(self)@, self@);
            }
            Ok(())
        }
    }
}

/// What a whole collection does to a heap: it frees the boxes that are not in use. Those that are
/// in use keep their values and their roots, and are black.
pub open spec fn collected<D: CgcCompat>(before: HeapView<D>, after: HeapView<D>) -> bool {
    &&& after.phase is Idle
    &&& after.headers.len() == before.headers.len()
    &&& forall|p: usize| #[trigger] after.has(p) <==> before.has(p) && before.live(p)
    &&& forall|p: usize| #[trigger]
        after.has(p) ==> after.header(p) == (CgcHeader {
            color: Color::Black,
            next: after.header(p).next,
            ..before.header(p)
        }) && after.payload(p) == before.payload(p)
    &&& after.allocated == model::total(after.headers)
}

/// Neither what may be allocated nor whether a collection was started matters to what was
/// collected.
proof fn collected_frame<D: CgcCompat>(start: HeapView<D>, a: HeapView<D>, b: HeapView<D>)
    requires
        collected(start, a),
        b == (HeapView { heap_space: b.heap_space, collecting: b.collecting, ..a }),
    ensures
        collected(start, b),
{
    assert forall|p: usize| #[trigger] b.has(p) <==> start.has(p) && start.live(p) by {
        assert(a.has(p) <==> b.has(p));
    }
    assert forall|p: usize| #[trigger] b.has(p) implies b.header(p) == a.header(p) && b.payload(p)
        == a.payload(p) && a.has(p) by {}
}

/// What is known of the heap while its boxes are whitened.
spec fn whitening<D: CgcCompat>(start: HeapView<D>, now: HeapView<D>) -> bool {
    &&& now.phase is Whiten
    &&& now == (HeapView { headers: now.headers, phase: now.phase, done: now.done, ..start })
    &&& now.headers.len() == start.headers.len()
    &&& forall|p: usize| #[trigger] now.has(p) <==> start.has(p)
    &&& forall|i: int|
        0 <= i < now.done ==> now.header(#[trigger] start.chain[i]) == whiten::whitened(
            start.header(start.chain[i]),
        )
    &&& forall|i: int|
        now.done <= i < start.chain.len() ==> now.header(#[trigger] start.chain[i])
            == start.header(start.chain[i])
}

proof fn whitening_step<D: CgcCompat>(start: HeapView<D>, before: HeapView<D>, after: HeapView<D>)
    requires
        start.wf(),
        before.wf(),
        whitening(start, before),
        before.phase->Whiten_at != NULL,
        whiten::whitened_next(before, after),
    ensures
        whitening(start, after),
        before.done < start.chain.len(),
        after.done == before.done + 1,
{
    let i = before.done;
    assert(i < start.chain.len());
    assert forall|p: usize| #[trigger] after.has(p) <==> start.has(p) by {
        assert(before.has(p) <==> start.has(p));
    }
    assert forall|j: int| 0 <= j < start.chain.len() && j != i implies after.header(
        #[trigger] start.chain[j],
    ) == before.header(start.chain[j]) by {
        assert(start.chain[j] != start.chain[i]);
    }
}

proof fn whitening_end<D: CgcCompat>(start: HeapView<D>, after: HeapView<D>)
    requires
        start.wf(),
        start.phase is Idle,
        after.wf(),
        whitening(start, after),
        after.phase == (Phase::Whiten { at: NULL }),
    ensures
        after.done == start.chain.len(),
        forall|p: usize| #[trigger]
            after.has(p) ==> after.header(p) == whiten::whitened(start.header(p)),
{
    if after.done < start.chain.len() {
        assert(start.chain.contains(start.chain[after.done]));
        assert(start.has(start.chain[after.done]));
    }
    assert forall|p: usize| #[trigger] after.has(p) implies after.header(p) == whiten::whitened(
        start.header(p),
    ) by {
        assert(start.has(p));
        let i = choose|i: int| 0 <= i < start.chain.len() && start.chain[i] == p;
        assert(after.header(start.chain[i]) == whiten::whitened(start.header(start.chain[i])));
    }
}

/// What is known of the heap while boxes are freed.
spec fn sweeping<D: CgcCompat>(start: HeapView<D>, now: HeapView<D>) -> bool {
    &&& now == (HeapView {
        headers: now.headers,
        payloads: now.payloads,
        detached: now.detached,
        allocated: now.allocated,
        phase: now.phase,
        ..start
    })
    &&& now.headers.len() == start.headers.len()
    &&& forall|p: usize| #[trigger]
        now.has(p) <==> start.has(p) && (start.detached.contains(p) ==> now.detached.contains(p))
    &&& forall|p: usize| #[trigger] now.detached.contains(p) ==> start.detached.contains(p)
    &&& forall|p: usize| #[trigger]
        now.has(p) ==> now.header(p) == start.header(p) && now.payload(p) == start.payload(p)
}

proof fn sweeping_step<D: CgcCompat>(start: HeapView<D>, before: HeapView<D>, after: HeapView<D>)
    requires
        before.wf(),
        before.phase is Sweep,
        before.detached.len() > 0,
        sweeping(start, before),
        sweep::freed_next(before, after),
    ensures
        sweeping(start, after),
        after.phase is Sweep,
{
    let node = before.phase->Sweep_head;
    assert forall|p: usize| #[trigger] after.detached.contains(p) <==> before.detached.contains(p)
        && p != node by {
        if after.detached.contains(p) {
            let i = choose|i: int| 0 <= i < after.detached.len() && after.detached[i] == p;
            assert(before.detached[i + 1] == p);
        }
        if before.detached.contains(p) && p != node {
            let i = choose|i: int| 0 <= i < before.detached.len() && before.detached[i] == p;
            assert(after.detached[i - 1] == p);
        }
    }
    assert(before.detached.contains(before.detached[0]));
    assert forall|p: usize| #[trigger] after.has(p) <==> before.has(p) && p != node by {}
    assert forall|p: usize| #[trigger] after.has(p) implies after.header(p) == before.header(p)
        && after.payload(p) == before.payload(p) by {}
}

proof fn sweeping_end<D: CgcCompat>(start: HeapView<D>, before: HeapView<D>, after: HeapView<D>)
    requires
        before.phase is Sweep,
        sweeping(start, before),
        sweep::accounted(before, after),
    ensures
        sweeping(start, after),
        after.phase is Idle,
        after.detached == before.detached,
{
    assert(forall|p: usize| #[trigger] after.has(p) <==> before.has(p));
    assert forall|p: usize| #[trigger] after.has(p) implies after.header(p) == before.header(p)
        && after.payload(p) == before.payload(p) by {
        assert(before.has(p));
    }
}

/// What is known of the heap right after its boxes were taken over.
spec fn taken_from<D: CgcCompat>(start: HeapView<D>, taken: HeapView<D>) -> bool {
    &&& taken.wf()
    &&& taken.phase is Blacken
    &&& taken.headers.len() == start.headers.len()
    &&& taken.payloads == start.payloads
    &&& taken.chain == Seq::<usize>::empty()
    &&& taken.detached == start.chain
    &&& forall|p: usize| #[trigger] taken.has(p) <==> start.has(p)
    &&& forall|p: usize| #[trigger]
        taken.has(p) ==> taken.header(p) == whiten::whitened(start.header(p))
}

/// What is known of the heap right after the boxes in use were put back.
spec fn told_apart<D: CgcCompat>(start: HeapView<D>, after: HeapView<D>) -> bool {
    &&& after.headers.len() == start.headers.len()
    &&& after.payloads == start.payloads
    &&& forall|p: usize| #[trigger] after.has(p) <==> start.has(p)
    &&& forall|p: usize| #[trigger]
        after.has(p) ==> after.header(p) == (CgcHeader {
            color: if start.live(p) {
                Color::Black
            } else {
                Color::White
            },
            next: after.header(p).next,
            ..start.header(p)
        })
    &&& forall|p: usize| #[trigger] after.detached.contains(p) <==> start.has(p) && !start.live(p)
}

/// What is known of the heap during a collection that nothing comes between.
spec fn under_way<D: CgcCompat>(
    start: HeapView<D>,
    now: HeapView<D>,
    taken: HeapView<D>,
    restored: HeapView<D>,
) -> bool {
    match now.phase {
        Phase::Idle => now == start,
        Phase::Whiten { at } => whitening(start, now),
        Phase::Blacken { head, before, at, black_head, black_tail, saw_grays } => {
            &&& taken_from(start, taken)
            &&& blackening(taken, now)
        },
        Phase::Sweep { head, freed } => {
            &&& told_apart(start, restored)
            &&& sweeping(restored, now)
        },
    }
}

/// One more step, with nothing in between.
#[verifier::spinoff_prover]
proof fn under_way_step<D: CgcCompat>(
    start: HeapView<D>,
    before: HeapView<D>,
    after: HeapView<D>,
    taken: HeapView<D>,
    restored: HeapView<D>,
) -> (known: (HeapView<D>, HeapView<D>))
    requires
        start.wf(),
        start.phase is Idle,
        before.wf(),
        after.wf(),
        under_way(start, before, taken, restored),
        step::stepped(before, after, true),
    ensures
        under_way(start, after, known.0, known.1),
        !(after.phase is Idle),
{
    match before.phase {
        Phase::Idle => {
            assert(forall|p: usize| #[trigger] after.has(p) <==> start.has(p));
            (taken, restored)
        },
        Phase::Whiten { at } => {
            if at != NULL {
                whitening_step(start, before, after);
            } else {
                whitening_end(start, before);
                assert forall|p: usize| #[trigger] after.has(p) <==> start.has(p) by {
                    assert(before.has(p) <==> start.has(p));
                }
                assert forall|p: usize| #[trigger] after.has(p) implies after.header(p)
                    == whiten::whitened(start.header(p)) by {
                    assert(before.has(p));
                }
                blackening_start(after);
            }
            (after, restored)
        },
        Phase::Blacken { head, before: prior, at, black_head, black_tail, saw_grays } => {
            if at != NULL || saw_grays {
                blackening_next(taken, before, after);
            } else {
                blackening_end(taken, before);
                marking_tells_apart(start, taken, before);
                assert forall|p: usize| #[trigger] after.has(p) <==> start.has(p) by {
                    assert(before.has(p) <==> after.has(p));
                }
                assert forall|p: usize| #[trigger] after.has(p) implies after.header(p) == (
                CgcHeader {
                    color: if start.live(p) {
                        Color::Black
                    } else {
                        Color::White
                    },
                    next: after.header(p).next,
                    ..start.header(p)
                }) by {
                    assert(before.has(p));
                }
                sweeping_start(after);
            }
            (taken, after)
        },
        Phase::Sweep { head, freed } => {
            sweeping_step(restored, before, after);
            (taken, restored)
        },
    }
}

proof fn blackening_start<D: CgcCompat>(heap: HeapView<D>)
    ensures
        blackening(heap, heap),
{
}

proof fn sweeping_start<D: CgcCompat>(heap: HeapView<D>)
    requires
        heap.wf(),
    ensures
        sweeping(heap, heap),
{
}

/// What is known after some steps with nothing in between.
proof fn steps_known<D: CgcCompat>(heaps: Seq<HeapView<D>>, i: int) -> (known: (
    HeapView<D>,
    HeapView<D>,
))
    requires
        step::is_run(heaps),
        heaps[0].phase is Idle,
        0 <= i < heaps.len(),
    ensures
        under_way(heaps[0], heaps[i], known.0, known.1),
    decreases i,
{
    assert(heaps[0].wf());
    if i == 0 {
        (heaps[0], heaps[0])
    } else {
        let (taken, restored) = steps_known(heaps, i - 1);
        assert(heaps[i - 1].wf());
        assert(heaps[i].wf());
        assert(step::stepped(heaps[i - 1], heaps[i - 1 + 1], true));
        under_way_step(heaps[0], heaps[i - 1], heaps[i], taken, restored)
    }
}

/// All the steps of a collection with nothing between them free what was not in use when it
/// began.
pub(crate) proof fn all_steps_collect<D: CgcCompat>(start: HeapView<D>, after: HeapView<D>)
    requires
        step::ran(start, after),
    ensures
        collected(start, after),
{
    let last = choose|last: HeapView<D>| #[trigger]
        step::runs_to(start, last) && step::stepped(last, after, false) && after.wf();
    let heaps = choose|heaps: Seq<HeapView<D>>| #[trigger]
        step::is_run(heaps) && heaps.first() == start && heaps.last() == last;
    assert(heaps[heaps.len() - 1].wf());
    let (taken, restored) = steps_known(heaps, heaps.len() - 1);
    sweeping_end(restored, last, after);
    assert(last.detached.len() == 0) by {
        if last.detached.len() > 0 {
            assert(last.detached.contains(last.detached[0]));
            assert(last.has(last.detached[0]));
        }
    }
    assert forall|p: usize| #[trigger] after.has(p) <==> start.has(p) && start.live(p) by {
        assert(restored.has(p) <==> start.has(p));
        assert(!after.detached.contains(p));
    }
    assert forall|p: usize| #[trigger] after.has(p) implies after.header(p) == (CgcHeader {
        color: Color::Black,
        next: after.header(p).next,
        ..start.header(p)
    }) && after.payload(p) == start.payload(p) by {
        assert(restored.has(p));
    }
}

/// What is known of the heap while its boxes are darkened.
spec fn blackening<D: CgcCompat>(start: HeapView<D>, now: HeapView<D>) -> bool {
    &&& blacken::same_boxes(start, now)
    &&& now.chain == start.chain
    &&& now.box_chain == start.box_chain
    &&& forall|p: usize| #[trigger]
        now.has(p) && now.header(p).color != start.header(p).color ==> now.header(p).color
            == Color::Black && color_after_blacken(start, p) == Color::Black
    &&& forall|p: usize| #[trigger] now.detached.contains(p) ==> start.detached.contains(p)
    &&& forall|p: usize| #[trigger]
        now.black.contains(p) ==> start.black.contains(p) || now.header(p).color == Color::Black
}

proof fn blackening_frame<D: CgcCompat>(start: HeapView<D>, before: HeapView<D>, after: HeapView<D>)
    requires
        blackening(start, before),
        after == (HeapView { phase: after.phase, done: after.done, ..before }),
    ensures
        blackening(start, after),
{
    assert(forall|p: usize| #[trigger] after.has(p) <==> before.has(p));
    assert forall|p: usize| #[trigger] after.has(p) implies after.header(p) == before.header(p) by {}
    assert forall|p: usize| #[trigger] after.has(p) implies after.header(p) == (CgcHeader {
        color: after.header(p).color,
        next: after.header(p).next,
        ..start.header(p)
    }) by {
        assert(before.has(p));
    }
    assert forall|p: usize| #[trigger]
        after.has(p) && after.header(p).color != start.header(p).color implies after.header(p).color
        == Color::Black && color_after_blacken(start, p) == Color::Black by {
        assert(before.has(p));
    }
}

/// What is known while darkening goes on is still known one step later.
proof fn blackening_next<D: CgcCompat>(start: HeapView<D>, before: HeapView<D>, after: HeapView<D>)
    requires
        start.wf(),
        start.phase is Blacken,
        before.wf(),
        before.phase is Blacken,
        blackening(start, before),
        before.phase->Blacken_at != NULL ==> blacken::visited_next(before, after),
        before.phase->Blacken_at == NULL ==> blacken::passed_again(before, after),
    ensures
        blackening(start, after),
{
    let at = before.phase->Blacken_at;
    if at != NULL && before.header(at).color != Color::White {
        blackening_step(start, before, after, at);
    } else {
        blackening_frame(start, before, after);
    }
}

/// What is known while darkening goes on is still known once one more box was blackened.
proof fn blackening_step<D: CgcCompat>(
    start: HeapView<D>,
    before: HeapView<D>,
    after: HeapView<D>,
    at: usize,
)
    requires
        start.wf(),
        start.phase is Blacken,
        before.wf(),
        blackening(start, before),
        0 <= before.done < before.detached.len(),
        before.detached[before.done] == at,
        before.has(at),
        blacken::same_boxes(before, after),
        forall|p: usize| #[trigger]
            after.has(p) ==> after.header(p).color == blacken::color_after_visit(before, at, p),
        after.chain == before.chain,
        after.box_chain == before.box_chain,
        after.detached == before.detached.remove(before.done),
        before.header(at).color != Color::White,
        after.black == seq![at] + before.black,
    ensures
        blackening(start, after),
{
    assert forall|p: usize| #[trigger] after.has(p) <==> start.has(p) by {
        assert(before.has(p) <==> start.has(p));
    }
    assert(before.detached.contains(at));
    assert forall|p: usize| #[trigger] after.has(p) implies after.header(p) == (CgcHeader {
        color: after.header(p).color,
        next: after.header(p).next,
        ..start.header(p)
    }) by {
        assert(before.has(p));
    }
    assert forall|p: usize| #[trigger]
        after.has(p) && after.header(p).color != start.header(p).color implies after.header(p).color
        == Color::Black && color_after_blacken(start, p) == Color::Black by {
        assert(before.has(p));
        assert(start.has(p));
        if before.header(p).color == start.header(p).color {
            // It was blackened by this visit.
            assert(before.header(at).color == Color::Gray);
            assert(start.header(at).color == Color::Gray);
            if p == at {
                assert(start.detached.contains(p));
            } else {
                let path = choose|path: Seq<usize>| #[trigger]
                    model::is_path(before.payloads, path) && path.len() > 1 && path.first() == at
                        && path.last() == p && model::all_white_after(before.headers, path);
                assert forall|i: int| 1 <= i < path.len() implies model::has(
                    start.headers,
                    #[trigger] path[i],
                ) && model::header_at(start.headers, path[i]).color == Color::White by {
                    assert(model::has(before.headers, path[i]));
                    assert(before.has(path[i]));
                    assert(start.has(path[i]));
                }
                assert(model::all_white_after(start.headers, path));
                assert(model::reaches_white(start.headers, start.payloads, at, p));
                assert(start.detached.contains(at));
                assert(reached_from_gray(start, p));
                white_is_detached(start, p);
            }
        }
    }
    assert forall|p: usize| #[trigger] after.detached.contains(p) implies start.detached.contains(
        p,
    ) by {
        let i = choose|i: int| 0 <= i < after.detached.len() && after.detached[i] == p;
        let j = if i < before.done {
            i
        } else {
            i + 1
        };
        assert(before.detached[j] == p);
        assert(before.detached.contains(p));
    }
    assert forall|p: usize| #[trigger] after.black.contains(p) implies start.black.contains(p)
        || after.header(p).color == Color::Black by {
        let i = choose|i: int| 0 <= i < after.black.len() && after.black[i] == p;
        if i > 0 {
            assert(before.black[i - 1] == p);
            assert(before.black.contains(p));
            assert(before.has(p));
        }
        assert(after.has(p));
    }
}

/// A white box is always one that was taken over and not moved to the black list.
proof fn white_is_detached<D: CgcCompat>(heap: HeapView<D>, p: usize)
    requires
        heap.wf(),
        heap.phase is Blacken,
        heap.has(p),
        heap.header(p).color == Color::White,
    ensures
        heap.detached.contains(p),
{
    assert(heap.has(p));
    if heap.chain.contains(p) {
        assert(heap.header(p).color != Color::White);
    }
    if heap.black.contains(p) {
        assert(heap.header(p).color != Color::White);
    }
}

/// Once a pass has met no gray box, everything that is in use has been blackened.
#[verifier::spinoff_prover]
proof fn blackening_end<D: CgcCompat>(start: HeapView<D>, after: HeapView<D>)
    requires
        start.wf(),
        start.phase is Blacken,
        after.wf(),
        blackening(start, after),
        after.phase is Blacken,
        after.phase->Blacken_at == NULL,
        !after.phase->saw_grays,
    ensures
        forall|p: usize| #[trigger]
            after.has(p) ==> after.header(p).color == color_after_blacken(start, p),
        forall|p: usize| #[trigger]
            after.detached.contains(p) <==> start.detached.contains(p) && color_after_blacken(
                start,
                p,
            ) == Color::White,
{
    sweep::detached_is_white(after);
    assert forall|p: usize| #[trigger] after.has(p) implies after.header(p).color
        == color_after_blacken(start, p) by {
        assert(start.has(p));
        if after.header(p).color == start.header(p).color {
            if after.detached.contains(p) {
                // White before and after: no gray box has reached it.
                if reached_from_gray(start, p) {
                    let gray = choose|gray: usize| #[trigger]
                        start.detached.contains(gray) && start.header(gray).color == Color::Gray
                            && model::reaches_white(start.headers, start.payloads, gray, p);
                    gray_has_reached(start, after, gray, p);
                }
            } else if start.detached.contains(p) {
                assert(!after.chain.contains(p));
                assert(after.black.contains(p));
                assert(after.header(p).color == Color::Black);
            }
        }
    }
    assert forall|p: usize| #[trigger]
        after.detached.contains(p) <==> start.detached.contains(p) && color_after_blacken(start, p)
            == Color::White by {
        if after.detached.contains(p) {
            assert(after.has(p));
        }
        if start.detached.contains(p) && color_after_blacken(start, p) == Color::White {
            assert(start.has(p));
            assert(after.has(p));
            white_is_detached(after, p);
        }
    }
}

/// No box that a gray one has reached over white boxes is left white.
proof fn gray_has_reached<D: CgcCompat>(
    start: HeapView<D>,
    after: HeapView<D>,
    gray: usize,
    p: usize,
)
    requires
        start.wf(),
        start.phase is Blacken,
        after.wf(),
        blackening(start, after),
        after.phase is Blacken,
        forall|q: usize| #[trigger]
            after.detached.contains(q) ==> after.header(q).color == Color::White,
        start.detached.contains(gray),
        start.header(gray).color == Color::Gray,
        model::reaches_white(start.headers, start.payloads, gray, p),
    ensures
        after.header(p).color != Color::White,
{
    if after.header(p).color == Color::White {
        let path = choose|path: Seq<usize>| #[trigger]
            model::is_path(start.payloads, path) && path.len() > 1 && path.first() == gray
                && path.last() == p && model::all_white_after(start.headers, path);
        assert(start.has(gray));
        assert(after.has(gray));
        let i = lemmas::first_white(after.headers, after.payloads, path);
        let q = path[i];
        if i > 0 {
            assert(model::has(start.headers, path[i]));
            assert(start.has(q));
        }
        assert(after.has(q));
        assert(after.spared(q)) by {
            if i == 0 {
                assert(!after.detached.contains(q));
                assert(!after.chain.contains(q));
                assert(after.black.contains(q));
            } else {
                assert(after.header(q).color == Color::Black);
            }
        }
        let j = choose|j: int| 0 <= j < after.refs(q).len() && after.refs(q)[j] == path[i + 1];
        assert(after.header(after.refs(q)[j]).color != Color::White);
    }
}

/// What is known of a heap whose boxes were taken over and then darkened, in one go.
spec fn marked_from<D: CgcCompat>(
    start: HeapView<D>,
    taken: HeapView<D>,
    marked: HeapView<D>,
) -> bool {
    &&& start.wf()
    &&& start.phase is Idle
    &&& taken_from(start, taken)
    &&& marked.wf()
    &&& marked.phase is Blacken
    &&& blacken::same_boxes(taken, marked)
    &&& forall|p: usize| #[trigger]
        marked.has(p) ==> marked.header(p).color == color_after_blacken(taken, p)
    &&& forall|p: usize| #[trigger]
        marked.detached.contains(p) <==> taken.detached.contains(p) && color_after_blacken(
            taken,
            p,
        ) == Color::White
}

/// A box that is in use is blackened.
proof fn live_is_black<D: CgcCompat>(
    start: HeapView<D>,
    taken: HeapView<D>,
    marked: HeapView<D>,
    p: usize,
)
    requires
        marked_from(start, taken, marked),
        start.has(p),
        start.live(p),
    ensures
        color_after_blacken(taken, p) == Color::Black,
{
    let root = choose|root: usize| #[trigger]
        model::has(start.headers, root) && model::header_at(start.headers, root).roots > 0
            && model::reaches(start.payloads, root, p);
    let path = choose|path: Seq<usize>| #[trigger]
        model::is_path(start.payloads, path) && path.first() == root && path.last() == p;
    assert(start.has(root));
    assert(taken.has(root));
    assert(marked.has(root));
    assert(start.chain.contains(root));
    assert(taken.has(p));
    assert(marked.has(p));
    assert(start.chain.contains(p));
    if color_after_blacken(taken, p) != Color::Black {
        let i = lemmas::first_white(marked.headers, marked.payloads, path);
        let q = path[i];
        laws::held_is_there(start);
        darken::path_in_table(start.headers, start.payloads, path, i);
        assert(start.has(q));
        assert(taken.has(q));
        assert(marked.has(q));
        assert(start.chain.contains(q));
        assert(marked.header(q).color == Color::Black);
        assert(marked.spared(q));
        let j = choose|j: int| 0 <= j < marked.refs(q).len() && marked.refs(q)[j] == path[i + 1];
        assert(marked.header(marked.refs(q)[j]).color != Color::White);
    }
}

/// A box that is blackened is in use.
proof fn black_is_live<D: CgcCompat>(start: HeapView<D>, taken: HeapView<D>, p: usize)
    requires
        start.wf(),
        taken_from(start, taken),
        start.has(p),
        color_after_blacken(taken, p) == Color::Black,
    ensures
        start.live(p),
{
    assert(taken.has(p));
    if start.header(p).roots > 0 {
        lemmas::reaches_self(start.payloads, p);
        assert(model::has(start.headers, p));
    } else {
        let gray = choose|gray: usize| #[trigger]
            taken.detached.contains(gray) && taken.header(gray).color == Color::Gray
                && model::reaches_white(taken.headers, taken.payloads, gray, p);
        assert(start.has(gray));
        assert(taken.has(gray));
        let path = choose|path: Seq<usize>| #[trigger]
            model::is_path(taken.payloads, path) && path.len() > 1 && path.first() == gray
                && path.last() == p && model::all_white_after(taken.headers, path);
        assert(model::is_path(start.payloads, path));
        assert(model::reaches(start.payloads, gray, p));
        assert(model::has(start.headers, gray));
    }
}

/// When a collection is done in one go, the boxes that are blackened are those that were in use
/// when it began.
proof fn marking_tells_apart<D: CgcCompat>(
    start: HeapView<D>,
    taken: HeapView<D>,
    marked: HeapView<D>,
)
    requires
        marked_from(start, taken, marked),
    ensures
        told_apart(start, marked),
{
    assert forall|p: usize| #[trigger] marked.has(p) <==> start.has(p) by {
        assert(marked.has(p) <==> taken.has(p));
    }
    assert forall|p: usize| #[trigger] start.has(p) implies color_after_blacken(taken, p) == (
    if start.live(p) {
        Color::Black
    } else {
        Color::White
    }) by {
        assert(taken.has(p));
        assert(start.chain.contains(p));
        if start.live(p) {
            live_is_black(start, taken, marked, p);
        } else if color_after_blacken(taken, p) == Color::Black {
            black_is_live(start, taken, p);
        }
    }
    assert forall|p: usize| #[trigger] marked.has(p) implies marked.header(p) == (CgcHeader {
        color: if start.live(p) {
            Color::Black
        } else {
            Color::White
        },
        next: marked.header(p).next,
        ..start.header(p)
    }) by {
        assert(start.has(p));
        assert(taken.has(p));
    }
    assert forall|p: usize| #[trigger] marked.detached.contains(p) <==> start.has(p) && !start.live(
        p,
    ) by {
        if start.has(p) {
            assert(start.chain.contains(p));
        }
        if marked.detached.contains(p) {
            assert(marked.has(p));
        }
    }
}

} // verus!
