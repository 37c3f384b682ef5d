use vstd::prelude::*;

use crate::compat::CgcCompat;
use crate::header::NULL;
use crate::heap::{blacken, sweep, whiten, Heap};
use crate::model::HeapView;
use crate::phase::Phase;

verus! {

/// What the next step of a collection does to a heap. The step after which nothing is left to do
/// is the one that accounts for what was freed.
pub open spec fn stepped<D: CgcCompat>(
    before: HeapView<D>,
    after: HeapView<D>,
    more: bool,
) -> bool {
    match before.phase {
        Phase::Idle => more && whiten::begun(before, after),
        Phase::Whiten { at } => more && if at != NULL {
            whiten::whitened_next(before, after)
        } else {
            blacken::taken_over(before, after)
        },
        Phase::Blacken { head, before: prior, at, black_head, black_tail, saw_grays } => more
            && if at != NULL {
            blacken::visited_next(before, after)
        } else if saw_grays {
            blacken::passed_again(before, after)
        } else {
            sweep::restored(before, after)
        },
        Phase::Sweep { head, freed } => {
            &&& more == (head != NULL)
            &&& if head != NULL {
                sweep::freed_next(before, after)
            } else {
                sweep::accounted(before, after)
            }
        },
    }
}

/// Each heap comes from the one before it by a step of a collection that leaves more to do.
pub open spec fn is_run<D: CgcCompat>(heaps: Seq<HeapView<D>>) -> bool {
    &&& heaps.len() > 0
    &&& forall|i: int| 0 <= i < heaps.len() ==> (#[trigger] heaps[i]).wf()
    &&& forall|i: int|
        0 <= i < heaps.len() - 1 ==> stepped(#[trigger] heaps[i], heaps[i + 1], true)
}

/// Steps of a collection with nothing between them lead from one heap to the other, and leave
/// more to do.
pub open spec fn runs_to<D: CgcCompat>(before: HeapView<D>, after: HeapView<D>) -> bool {
    exists|heaps: Seq<HeapView<D>>| #[trigger]
        is_run(heaps) && heaps.first() == before && heaps.last() == after
}

/// Steps of a collection with nothing between them lead from one heap to the other, and the last
/// of them leaves nothing to do.
pub open spec fn ends_at<D: CgcCompat>(before: HeapView<D>, after: HeapView<D>) -> bool {
    exists|last: HeapView<D>| #[trigger]
        runs_to(before, last) && stepped(last, after, false) && after.wf()
}

/// The steps of a whole collection lead from one heap to the other.
pub open spec fn ran<D: CgcCompat>(before: HeapView<D>, after: HeapView<D>) -> bool {
    before.phase is Idle && ends_at(before, after)
}

/// No step at all leads from a heap to itself.
pub(crate) proof fn run_of_one<D: CgcCompat>(heap: HeapView<D>)
    requires
        heap.wf(),
    ensures
        runs_to(heap, heap),
{
    let heaps = seq![heap];
    assert(is_run(heaps));
    assert(heaps.first() == heap && heaps.last() == heap);
}

/// One more step makes a longer run.
pub(crate) proof fn run_on<D: CgcCompat>(
    before: HeapView<D>,
    last: HeapView<D>,
    after: HeapView<D>,
)
    requires
        runs_to(before, last),
        stepped(last, after, true),
        after.wf(),
    ensures
        runs_to(before, after),
{
    let heaps = choose|heaps: Seq<HeapView<D>>| #[trigger]
        is_run(heaps) && heaps.first() == before && heaps.last() == last;
    let longer = heaps.push(after);
    assert forall|i: int| 0 <= i < longer.len() implies (#[trigger] longer[i]).wf() by {
        if i < heaps.len() {
            assert(heaps[i].wf());
        }
    }
    assert forall|i: int| 0 <= i < longer.len() - 1 implies stepped(
        #[trigger] longer[i],
        longer[i + 1],
        true,
    ) by {
        if i < heaps.len() - 1 {
            assert(stepped(heaps[i], heaps[i + 1], true));
        }
    }
    assert(is_run(longer));
    assert(longer.first() == before && longer.last() == after);
}

/// A run can go on where another one has come to.
pub(crate) proof fn run_through<D: CgcCompat>(a: HeapView<D>, b: HeapView<D>, c: HeapView<D>)
    requires
        runs_to(a, b),
        runs_to(b, c),
    ensures
        runs_to(a, c),
{
    let first = choose|heaps: Seq<HeapView<D>>| #[trigger]
        is_run(heaps) && heaps.first() == a && heaps.last() == b;
    let second = choose|heaps: Seq<HeapView<D>>| #[trigger]
        is_run(heaps) && heaps.first() == b && heaps.last() == c;
    let both = first + second.skip(1);
    assert forall|i: int| 0 <= i < both.len() implies (#[trigger] both[i]).wf() by {
        if i < first.len() {
            assert(first[i].wf());
        } else {
            assert(second[i - first.len() + 1].wf());
        }
    }
    assert forall|i: int| 0 <= i < both.len() - 1 implies stepped(
        #[trigger] both[i],
        both[i + 1],
        true,
    ) by {
        if i < first.len() - 1 {
            assert(stepped(first[i], first[i + 1], true));
        } else {
            let j = i - first.len() + 1;
            assert(both[i] == second[j]);
            assert(stepped(second[j], second[j + 1], true));
        }
    }
    assert(is_run(both));
    assert(both.first() == a);
    assert(both.last() == c) by {
        if second.len() == 1 {
            assert(both =~= first);
        }
    }
}

impl<D: CgcCompat> Heap<D> {
    /// Does the next step of a collection, or the first one if none is under way. Returns whether
    /// there are more to do.
    pub fn step(&mut self) -> (more: bool)
        requires
            old(self).wf(),
        ensures
            final(self).wf(),
            stepped(old(self)@, final(self)@, more),
    {
        match self.phase() {
            Phase::Idle => {
                self.begin();
                true
            },
            Phase::Whiten { .. } => {
                if !self.whiten_next() {
                    self.detach();
                }
                true
            },
            Phase::Blacken { .. } => {
                if !self.blacken_next() {
                    self.restore();
                }
                true
            },
            Phase::Sweep { .. } => self.sweep_next(),
        }
    }
}

} // verus!
