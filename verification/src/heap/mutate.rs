use vstd::prelude::*;

use crate::cgc::CgcBox;
use crate::compat::CgcCompat;
use crate::header::{CgcHeader, Color, NULL};
use crate::heap::{darken, Heap};
use crate::holds::Holds;
use crate::laws;
use crate::lemmas;
use crate::model;
use crate::model::HeapView;
use crate::phase::Phase;

verus! {

/// Every handle in the value is rooted, and the boxes that they point to count them as roots.
pub open spec fn counted<D: CgcCompat, T: CgcCompat>(heap: HeapView<D>, value: T) -> bool {
    &&& value.flagged(true)
    &&& model::has_all(heap.headers, value.refs())
    &&& forall|p: usize| #[trigger]
        heap.has(p) ==> model::occurrences(value.refs(), p) <= heap.header(p).roots
}

/// What making a box of `size` bytes at `p` does to a heap, where `refs` are the pointers that the
/// value in it holds: the box becomes the first of the chain, and what it points to is no longer
/// rooted by the value.
pub open spec fn inserted<D: CgcCompat>(
    before: HeapView<D>,
    after: HeapView<D>,
    p: usize,
    refs: Seq<usize>,
    size: usize,
) -> bool {
    &&& !before.has(p)
    &&& after.has(p)
    &&& after.header(p) == (CgcHeader { size, color: Color::Gray, roots: 1, next: before.box_chain })
    &&& after.refs(p) == refs
    &&& forall|q: usize| #[trigger] after.has(q) <==> before.has(q) || q == p
    &&& forall|q: usize| #[trigger]
        before.has(q) ==> after.payload(q) == before.payload(q) && after.header(q) == (CgcHeader {
            roots: (before.header(q).roots - model::occurrences(refs, q)) as usize,
            ..before.header(q)
        })
    &&& after.box_chain == p
    &&& after.chain == seq![p] + before.chain
    &&& after.detached == before.detached
    &&& after.black == before.black
    &&& after.done == (if before.phase is Whiten {
        before.done + 1
    } else {
        before.done
    })
    &&& after.allocated == before.allocated + size
    &&& after.heap_space == before.heap_space.wrapping_sub(size as isize)
    &&& after.collecting == (before.collecting || before.heap_space < size)
    &&& after.phase == before.phase
}

/// What rooting the box at `p` does to a heap.
pub open spec fn rooted_once<D: CgcCompat>(
    before: HeapView<D>,
    after: HeapView<D>,
    p: usize,
) -> bool {
    after == (HeapView {
        headers: model::set_header(before.headers, p, before.header(p).rooted()),
        ..before
    })
}

/// What unrooting the box at `p` does to a heap.
pub open spec fn unrooted_once<D: CgcCompat>(
    before: HeapView<D>,
    after: HeapView<D>,
    p: usize,
) -> bool {
    after == (HeapView {
        headers: model::set_header(before.headers, p, before.header(p).unrooted()),
        ..before
    })
}

impl<D: CgcCompat> Heap<D> {
    /// Puts a new box on the heap, and starts a collection if more has been allocated since the
    /// last one than may be. Returns the pointer of the box.
    #[verifier::spinoff_prover]
    #[verifier::rlimit(60)]
    pub(crate) fn insert<T: CgcCompat>(&mut self, heap_box: CgcBox<T>) -> (p: usize) where
        D: Holds<T>,

        requires
            old(self).wf(),
            counted(old(self)@, heap_box.data),
            heap_box.header == (CgcHeader {
                size: heap_box.header.size,
                color: Color::Gray,
                roots: 1,
                next: NULL,
            }),
            heap_box.header.size < isize::MAX,
            old(self)@.allocated + heap_box.header.size <= usize::MAX,
        ensures
            final(self).wf(),
            inserted(
                old(self)@,
                final(self)@,
                p,
                heap_box.data.refs(),
                heap_box.header.size,
            ),
            final(self)@.payload(p).project() == Some(heap_box.data.set_rooted(false)),
    {
        let ghost start = self@;
        let mut header = heap_box.header;
        let mut data = heap_box.data;
        let size: usize = header.size;
        if self.heap_space < size as isize {
            let _ = self.force_collection();
        }
        let ghost vacant = self.vacant@;
        let ghost begun = self@;
        self.allocated = self.allocated + size;
        self.heap_space = self.heap_space.wrapping_sub(size as isize);

        header.next = self.box_chain;
        let p: usize = match self.vacant.pop() {
            Some(p) => {
                proof {
                    assert(vacant[vacant.len() - 1] == p);
                    assert(vacant.contains(p));
                    assert(!begun.has(p));
                }
                self.headers.put(p, header);
                p
            },
            None => {
                let p: usize = self.headers.len();
                self.headers.push(header);
                self.payloads.push(None);
                p
            },
        };
        self.box_chain = p;
        let ghost linked = self@;
        proof {
            self.lists@.chain = seq![p] + self.lists@.chain;
            if self.phase is Whiten {
                self.lists@.done = self.lists@.done + 1;
            }
            prepared(start, linked.headers, p, header, data.refs());
        }

        data.unroot(&mut self.headers);
        let ghost refs = data.refs();
        let value = D::wrap(data);
        self.payloads.set(p, Some(value));
        proof {
            insertion(start, linked.headers, self@, p, refs, size);
            assert forall|q: usize| #[trigger] self.vacant@.contains(q) <==> q
                < self@.headers.len() && !self@.has(q) by {
                assert(vacant.contains(q) <==> q < begun.headers.len() && !begun.has(q));
                assert(begun.has(q) <==> start.has(q));
                if self.vacant@.contains(q) {
                    let i = choose|i: int| 0 <= i < self.vacant@.len() && self.vacant@[i] == q;
                    assert(vacant[i] == q);
                }
                if vacant.contains(q) && q != p {
                    let i = choose|i: int| 0 <= i < vacant.len() && vacant[i] == q;
                    assert(self.vacant@[i] == q);
                }
            }
        }
        p
    }

    /// Roots the box at `p`, which is in use.
    pub(crate) fn root_box(&mut self, p: usize)
        requires
            old(self).wf(),
            old(self)@.has(p),
            old(self)@.live(p),
            old(self)@.header(p).roots < usize::MAX,
        ensures
            final(self).wf(),
            rooted_once(old(self)@, final(self)@, p),
    {
        self.headers.root(p);
        proof {
            rooting(old(self)@, self@, p);
            assert(self.vacancies()) by {
                assert(forall|q: usize| #[trigger] self@.has(q) <==> old(self)@.has(q));
            }
        }
    }

    /// Unroots the box at `p`, which has a root.
    pub(crate) fn unroot_box(&mut self, p: usize)
        requires
            old(self).wf(),
            old(self)@.has(p),
            old(self)@.header(p).roots > 0,
        ensures
            final(self).wf(),
            unrooted_once(old(self)@, final(self)@, p),
    {
        self.headers.unroot(p);
        proof {
            unrooting(old(self)@, self@, p);
            assert(self.vacancies()) by {
                assert(forall|q: usize| #[trigger] self@.has(q) <==> old(self)@.has(q));
            }
        }
    }
}

/// The table with the header of a new box at `p`.
proof fn prepared<D: CgcCompat>(
    start: HeapView<D>,
    slots: Seq<Option<CgcHeader>>,
    p: usize,
    header: CgcHeader,
    refs: Seq<usize>,
)
    requires
        start.wf(),
        !start.has(p),
        p <= start.headers.len(),
        p < start.headers.len() ==> slots == model::set_header(start.headers, p, header),
        p == start.headers.len() ==> slots == start.headers.push(Some(header)),
        model::has_all(start.headers, refs),
        forall|q: usize| #[trigger]
            start.has(q) ==> model::occurrences(refs, q) <= start.header(q).roots,
    ensures
        forall|q: usize| #[trigger] model::has(slots, q) <==> start.has(q) || q == p,
        forall|q: usize| #[trigger]
            start.has(q) ==> model::header_at(slots, q) == start.header(q),
        model::header_at(slots, p) == header,
        model::has_all(slots, refs),
        model::occurrences(refs, p) == 0,
        forall|q: usize| #[trigger]
            model::has(slots, q) ==> model::occurrences(refs, q) <= model::header_at(
                slots,
                q,
            ).roots,
        model::total(slots) == model::total(start.headers) + header.size,
{
    assert forall|q: usize| #[trigger] model::has(slots, q) <==> start.has(q) || q == p by {}
    assert forall|i: int| 0 <= i < refs.len() implies model::has(slots, #[trigger] refs[i]) by {
        assert(start.has(refs[i]));
    }
    if refs.contains(p) {
        let i = choose|i: int| 0 <= i < refs.len() && refs[i] == p;
        assert(model::has(start.headers, refs[i]));
    }
    lemmas::occurs_not(refs, p);
    assert forall|q: usize| #[trigger] model::has(slots, q) implies model::occurrences(refs, q)
        <= model::header_at(slots, q).roots by {
        if q != p {
            assert(start.has(q));
        }
    }
    if p < start.headers.len() {
        lemmas::total_update(start.headers, p as int, Some(header));
    } else {
        lemmas::total_push(start.headers, Some(header));
    }
}

/// All that holds of the heap still holds once a box was made.
#[verifier::spinoff_prover]
proof fn insertion<D: CgcCompat>(
    start: HeapView<D>,
    slots: Seq<Option<CgcHeader>>,
    after: HeapView<D>,
    p: usize,
    refs: Seq<usize>,
    size: usize,
)
    requires
        start.wf(),
        !start.has(p),
        p < slots.len(),
        slots.len() <= usize::MAX,
        start.headers.len() <= slots.len(),
        forall|q: usize| #[trigger] model::has(slots, q) <==> start.has(q) || q == p,
        forall|q: usize| #[trigger]
            start.has(q) ==> model::header_at(slots, q) == start.header(q),
        model::header_at(slots, p) == (CgcHeader {
            size,
            color: Color::Gray,
            roots: 1,
            next: start.box_chain,
        }),
        model::has_all(start.headers, refs),
        model::has_all(slots, refs),
        model::occurrences(refs, p) == 0,
        forall|q: usize| #[trigger]
            model::has(slots, q) ==> model::occurrences(refs, q) <= model::header_at(
                slots,
                q,
            ).roots,
        model::total(slots) == model::total(start.headers) + size,
        start.allocated + size <= usize::MAX,
        after.headers == model::unroot_all(slots, refs),
        after.payloads.len() == slots.len(),
        after.payloads[p as int] is Some,
        after.payload(p).refs() == refs,
        after.payload(p).flagged(false),
        forall|i: int|
            0 <= i < slots.len() && i != p ==> #[trigger] after.payloads[i] == (if i
                < start.payloads.len() {
                start.payloads[i]
            } else {
                None
            }),
        after.box_chain == p,
        after.chain == seq![p] + start.chain,
        after.detached == start.detached,
        after.black == start.black,
        after.done == (if start.phase is Whiten {
            start.done + 1
        } else {
            start.done
        }),
        after.allocated == start.allocated + size,
        after.phase == start.phase,
    ensures
        after.wf(),
        after.has(p),
        after.header(p) == (CgcHeader {
            size,
            color: Color::Gray,
            roots: 1,
            next: start.box_chain,
        }),
        forall|q: usize| #[trigger] after.has(q) <==> start.has(q) || q == p,
        forall|q: usize| #[trigger]
            start.has(q) ==> after.payload(q) == start.payload(q) && after.header(q) == (
            CgcHeader {
                roots: (start.header(q).roots - model::occurrences(refs, q)) as usize,
                ..start.header(q)
            }),
{
    lemmas::unroot_all_counts(slots, refs);
    assert forall|q: usize| #[trigger] after.has(q) <==> start.has(q) || q == p by {
        assert(model::has(after.headers, q) <==> model::has(slots, q));
    }
    assert(model::has(slots, p));
    assert forall|q: usize| #[trigger] start.has(q) implies after.payload(q) == start.payload(q)
        && after.header(q) == (CgcHeader {
        roots: (start.header(q).roots - model::occurrences(refs, q)) as usize,
        ..start.header(q)
    }) && after.refs(q) == start.refs(q) && after.payloads[q as int] == start.payloads[q as int] by {
        assert(model::has(slots, q));
    }
    // Each handle in the value was counted, so what it points to had a root.
    assert forall|i: int| 0 <= i < refs.len() implies start.has(#[trigger] refs[i]) && start.header(
        refs[i],
    ).roots > 0 by {
        assert(model::has(start.headers, refs[i]));
        assert(start.has(refs[i]));
        lemmas::occurs(refs, i);
        assert(model::has(slots, refs[i]));
    }
    assert(after.refs(p) == refs);
    // The values.
    assert forall|q: usize| #![trigger after.has(q)] q < after.headers.len() implies (after.has(q)
        <==> after.payloads[q as int] is Some) by {
        if q != p && q < start.headers.len() {
            assert(start.has(q) <==> start.payloads[q as int] is Some);
        }
    }
    assert forall|q: usize| #[trigger] after.has(q) && !after.doomed(q) implies model::has_all(
        after.headers,
        after.refs(q),
    ) by {
        if q != p {
            assert(start.has(q) && !start.doomed(q));
            assert(model::has_all(start.headers, start.refs(q)));
        }
        assert forall|i: int| 0 <= i < after.refs(q).len() implies model::has(
            after.headers,
            #[trigger] after.refs(q)[i],
        ) by {
            if q != p {
                assert(start.has(start.refs(q)[i]));
            } else {
                assert(start.has(refs[i]));
            }
            assert(after.has(after.refs(q)[i]));
        }
    }
    assert forall|q: usize| #[trigger] after.has(q) implies after.payload(q).flagged(false) by {
        if q != p {
            assert(start.has(q));
        }
    }
    assert(after.filled());
    // The lists.
    assert(!start.chain.contains(p) && !start.detached.contains(p) && !start.black.contains(p));
    assert forall|q: usize| #[trigger] after.chain.contains(q) <==> start.chain.contains(q) || q
        == p by {
        if after.chain.contains(q) {
            let i = choose|i: int| 0 <= i < after.chain.len() && after.chain[i] == q;
            if i > 0 {
                assert(start.chain[i - 1] == q);
            }
        }
        if start.chain.contains(q) {
            let i = choose|i: int| 0 <= i < start.chain.len() && start.chain[i] == q;
            assert(after.chain[i + 1] == q);
        }
        assert(after.chain[0] == p);
    }
    assert(after.chain.no_duplicates()) by {
        assert forall|i: int, j: int|
            0 <= i < after.chain.len() && 0 <= j < after.chain.len() && i != j implies after.chain[i]
            != after.chain[j] by {
            if i > 0 {
                assert(start.chain.contains(start.chain[i - 1]));
            }
            if j > 0 {
                assert(start.chain.contains(start.chain[j - 1]));
            }
        }
    }
    assert forall|q: usize| #[trigger] after.has(q) <==> after.chain.contains(q)
        || after.detached.contains(q) || after.black.contains(q) by {
        assert(start.has(q) <==> start.chain.contains(q) || start.detached.contains(q)
            || start.black.contains(q));
    }
    assert(after.sorted_into_lists());
    // The links.
    assert forall|q: usize| #[trigger] start.chain.contains(q) implies after.has(q)
        && after.header(q).next == start.header(q).next by {
        assert(start.has(q));
    }
    lemmas::linked_frame(start.headers, after.headers, start.chain, start.box_chain);
    lemmas::linked_front(after.headers, start.chain, start.box_chain, p);
    assert forall|q: usize| #[trigger] start.detached.contains(q) implies after.has(q)
        && after.header(q).next == start.header(q).next by {
        assert(start.has(q));
    }
    assert forall|q: usize| #[trigger] start.black.contains(q) implies after.has(q)
        && after.header(q).next == start.header(q).next by {
        assert(start.has(q));
    }
    // The bytes.
    assert forall|i: int| 0 <= i < after.headers.len() implies lemmas::weight(
        #[trigger] after.headers[i],
    ) == lemmas::weight(slots[i]) by {
        let q = i as usize;
        assert(model::has(after.headers, q) <==> model::has(slots, q));
    }
    lemmas::total_same(after.headers, slots);
    insertion_phase(start, after, p, refs);
}

/// What holds in each phase still holds once a box was made.
#[verifier::spinoff_prover]
proof fn insertion_phase<D: CgcCompat>(
    start: HeapView<D>,
    after: HeapView<D>,
    p: usize,
    refs: Seq<usize>,
)
    requires
        start.wf(),
        !start.has(p),
        after.has(p),
        after.sorted_into_lists(),
        after.header(p).color == Color::Gray,
        after.header(p).roots == 1,
        after.refs(p) == refs,
        forall|q: usize| #[trigger] after.has(q) <==> start.has(q) || q == p,
        forall|q: usize| #[trigger]
            start.has(q) ==> after.refs(q) == start.refs(q) && after.header(q) == (CgcHeader {
                roots: after.header(q).roots,
                ..start.header(q)
            }) && after.header(q).roots <= start.header(q).roots,
        forall|i: int|
            0 <= i < refs.len() ==> start.has(#[trigger] refs[i]) && start.header(refs[i]).roots
                > 0,
        after.chain == seq![p] + start.chain,
        after.detached == start.detached,
        after.black == start.black,
        after.done == (if start.phase is Whiten {
            start.done + 1
        } else {
            start.done
        }),
        after.phase == start.phase,
    ensures
        after.in_phase(),
{
    assert forall|q: usize| #[trigger] start.detached.contains(q) implies model::has(
        after.headers,
        q,
    ) && model::header_at(after.headers, q).next == model::header_at(start.headers, q).next by {
        assert(start.has(q));
        assert(after.has(q));
    }
    assert forall|q: usize| #[trigger] start.black.contains(q) implies model::has(after.headers, q)
        && model::header_at(after.headers, q).next == model::header_at(start.headers, q).next by {
        assert(start.has(q));
        assert(after.has(q));
    }
    match start.phase {
        Phase::Idle => {},
        Phase::Whiten { at } => {
            assert forall|i: int| 0 <= i < after.done implies after.whitened(
                #[trigger] after.chain[i],
            ) by {
                if i > 0 {
                    assert(after.chain[i] == start.chain[i - 1]);
                    assert(start.whitened(start.chain[i - 1]));
                    assert(start.chain.contains(start.chain[i - 1]));
                    assert(start.has(start.chain[i - 1]));
                }
            }
        },
        Phase::Blacken { head, before, at, black_head, black_tail, saw_grays } => {
            lemmas::linked_frame(start.headers, after.headers, start.detached, head);
            lemmas::linked_frame(start.headers, after.headers, start.black, black_head);
            insertion_marking(start, after, p, refs);
            if !saw_grays {
                assert forall|q: usize| #[trigger] start.detached.contains(q) implies after.header(
                    q,
                ).color == start.header(q).color by {
                    assert(start.has(q));
                }
                same_pass(start, after);
            }
        },
        Phase::Sweep { head, freed } => {
            lemmas::linked_frame(start.headers, after.headers, start.detached, head);
            assert forall|q: usize| #[trigger] after.detached.contains(q) implies after.header(
                q,
            ).roots == 0 by {
                assert(start.has(q));
            }
            assert forall|q: usize, i: int| #![trigger after.has(q), after.refs(q)[i]]
                after.has(q) && !after.detached.contains(q) && 0 <= i < after.refs(q).len() implies
                !after.detached.contains(after.refs(q)[i]) by {
                if q != p {
                    assert(start.has(q));
                    assert(!start.detached.contains(start.refs(q)[i]));
                } else {
                    assert(start.has(refs[i]));
                }
            }
        },
    }
}

/// No box in use can be missed after a box was made.
#[verifier::spinoff_prover]
proof fn insertion_marking<D: CgcCompat>(
    start: HeapView<D>,
    after: HeapView<D>,
    p: usize,
    refs: Seq<usize>,
)
    requires
        start.wf(),
        start.phase is Blacken,
        !start.has(p),
        after.has(p),
        after.sorted_into_lists(),
        after.header(p).color == Color::Gray,
        after.refs(p) == refs,
        forall|q: usize| #[trigger] after.has(q) <==> start.has(q) || q == p,
        forall|q: usize| #[trigger]
            start.has(q) ==> after.refs(q) == start.refs(q) && after.header(q) == (CgcHeader {
                roots: after.header(q).roots,
                ..start.header(q)
            }) && after.header(q).roots <= start.header(q).roots,
        forall|i: int|
            0 <= i < refs.len() ==> start.has(#[trigger] refs[i]) && start.header(refs[i]).roots
                > 0,
        after.detached == start.detached,
        after.black == start.black,
    ensures
        after.marking(),
{
    assert forall|q: usize| start.has(q) && start.spared(q) implies #[trigger] after.spared(
        q,
    ) by {
        assert forall|i: int| 0 <= i < after.refs(q).len() implies after.header(
            #[trigger] after.refs(q)[i],
        ).color != Color::White by {
            assert(start.header(start.refs(q)[i]).color != Color::White);
            assert(model::has_all(start.headers, start.refs(q)));
            assert(start.has(start.refs(q)[i]));
        }
    }
    assert(after.spared(p)) by {
        assert forall|i: int| 0 <= i < after.refs(p).len() implies after.header(
            #[trigger] after.refs(p)[i],
        ).color != Color::White by {
            assert(start.has(refs[i]));
        }
    }
    assert forall|q: usize| #[trigger] after.has(q) && after.header(q).roots > 0 implies
        after.header(q).color != Color::White by {
        if q != p {
            assert(start.has(q));
        }
    }
    assert forall|q: usize| #[trigger] after.black.contains(q) implies after.header(q).color
        != Color::White && after.spared(q) by {
        assert(start.has(q));
    }
    assert forall|q: usize| #[trigger] after.has(q) && after.header(q).color
        == Color::Black implies after.spared(q) by {
        assert(start.has(q));
    }
    assert forall|q: usize| #[trigger] after.chain.contains(q) implies after.header(q).color
        != Color::White && after.spared(q) by {
        assert(after.has(q));
        if q != p {
            assert(start.has(q));
            assert(!after.detached.contains(q) && !after.black.contains(q));
            assert(start.chain.contains(q));
        }
    }
}

/// A pass keeps what is known of the boxes that it has passed when no box that was taken over has
/// another color.
proof fn same_pass<D: CgcCompat>(a: HeapView<D>, b: HeapView<D>)
    requires
        a.passing(),
        a.sorted_into_lists(),
        0 <= a.done <= a.detached.len(),
        b.detached == a.detached,
        b.done == a.done,
        forall|p: usize| #[trigger]
            a.detached.contains(p) ==> b.header(p).color == a.header(p).color,
    ensures
        b.passing(),
{
    assert forall|i: int| 0 <= i < b.detached.len() implies b.header(
        #[trigger] b.detached[i],
    ).color == a.header(a.detached[i]).color by {
        assert(a.detached.contains(a.detached[i]));
    }
    if exists|i: int| 0 <= i < b.done && #[trigger] b.gray_at(i) {
        let i = choose|i: int| 0 <= i < b.done && #[trigger] b.gray_at(i);
        assert(b.header(b.detached[i]).color == a.header(a.detached[i]).color);
        assert(a.gray_at(i));
        let j = choose|j: int| a.done <= j < a.detached.len() && #[trigger] a.gray_at(j);
        assert(b.header(b.detached[j]).color == a.header(a.detached[j]).color);
        assert(b.gray_at(j));
    }
}

/// All that holds of the heap still holds once a box that is in use was rooted.
proof fn rooting<D: CgcCompat>(start: HeapView<D>, after: HeapView<D>, p: usize)
    requires
        start.wf(),
        start.has(p),
        start.live(p),
        start.header(p).roots < usize::MAX,
        rooted_once(start, after, p),
    ensures
        after.wf(),
{
    lemmas::total_update(start.headers, p as int, Some(start.header(p).rooted()));
    recolored(start, after, p);
    match start.phase {
        Phase::Idle => {},
        Phase::Whiten { at } => {
            assert forall|i: int| 0 <= i < after.done implies after.whitened(
                #[trigger] after.chain[i],
            ) by {
                assert(start.whitened(start.chain[i]));
            }
        },
        Phase::Blacken { head, before, at, black_head, black_tail, saw_grays } => {
            marking_kept(start, after, p);
            if !saw_grays {
                if start.header(p).color == after.header(p).color {
                    same_pass(start, after);
                } else if start.header(p).color == Color::White {
                    rooted_pass(start, after, p);
                } else {
                    regrayed_pass(start, after, p);
                }
            }
        },
        Phase::Sweep { head, freed } => {
            laws::live_is_kept(start, p);
            assert forall|q: usize, i: int| #![trigger after.has(q), after.refs(q)[i]]
                after.has(q) && !after.detached.contains(q) && 0 <= i < after.refs(q).len() implies
                !after.detached.contains(after.refs(q)[i]) by {
                assert(start.has(q));
                assert(!start.detached.contains(start.refs(q)[i]));
            }
        },
    }
}

/// All that holds of the heap still holds once a box that has a root was unrooted.
proof fn unrooting<D: CgcCompat>(start: HeapView<D>, after: HeapView<D>, p: usize)
    requires
        start.wf(),
        start.has(p),
        start.header(p).roots > 0,
        unrooted_once(start, after, p),
    ensures
        after.wf(),
{
    lemmas::total_update(start.headers, p as int, Some(start.header(p).unrooted()));
    recolored(start, after, p);
    match start.phase {
        Phase::Idle => {},
        Phase::Whiten { at } => {
            assert forall|i: int| 0 <= i < after.done implies after.whitened(
                #[trigger] after.chain[i],
            ) by {
                assert(start.whitened(start.chain[i]));
            }
        },
        Phase::Blacken { head, before, at, black_head, black_tail, saw_grays } => {
            marking_kept(start, after, p);
            if !saw_grays {
                same_pass(start, after);
            }
        },
        Phase::Sweep { head, freed } => {
            assert forall|q: usize, i: int| #![trigger after.has(q), after.refs(q)[i]]
                after.has(q) && !after.detached.contains(q) && 0 <= i < after.refs(q).len() implies
                !after.detached.contains(after.refs(q)[i]) by {
                assert(start.has(q));
                assert(!start.detached.contains(start.refs(q)[i]));
            }
        },
    }
}

/// The boxes, the lists and the links are the same when one box has another color or another
/// number of roots.
proof fn recolored<D: CgcCompat>(start: HeapView<D>, after: HeapView<D>, p: usize)
    requires
        start.wf(),
        start.has(p),
        after == (HeapView { headers: after.headers, ..start }),
        after.headers == model::set_header(start.headers, p, after.header(p)),
        after.header(p).next == start.header(p).next,
    ensures
        after.filled(),
        after.sorted_into_lists(),
        model::linked(after.headers, after.chain, after.box_chain),
        after.phase matches Phase::Blacken { head, .. } ==> model::linked(
            after.headers,
            after.detached,
            head,
        ),
        after.phase matches Phase::Blacken { black_head, .. } ==> model::linked(
            after.headers,
            after.black,
            black_head,
        ),
        after.phase matches Phase::Sweep { head, .. } ==> model::linked(
            after.headers,
            after.detached,
            head,
        ),
        forall|q: usize| #[trigger] after.has(q) <==> start.has(q),
        forall|q: usize| q != p && #[trigger] start.has(q) ==> after.header(q) == start.header(q),
{
    assert(forall|q: usize| #[trigger] after.has(q) <==> start.has(q));
    lemmas::filled_frame(start, after);
    lemmas::sorted_frame(start, after);
    assert forall|q: usize| start.has(q) implies model::has(after.headers, q)
        && #[trigger] model::header_at(after.headers, q).next == model::header_at(
        start.headers,
        q,
    ).next by {}
    assert(forall|q: usize| #[trigger] start.chain.contains(q) ==> start.has(q));
    assert(forall|q: usize| #[trigger] start.detached.contains(q) ==> start.has(q));
    assert(forall|q: usize| #[trigger] start.black.contains(q) ==> start.has(q));
    lemmas::linked_frame(start.headers, after.headers, start.chain, start.box_chain);
    match start.phase {
        Phase::Blacken { head, before, at, black_head, black_tail, saw_grays } => {
            lemmas::linked_frame(start.headers, after.headers, start.detached, head);
            lemmas::linked_frame(start.headers, after.headers, start.black, black_head);
        },
        Phase::Sweep { head, freed } => {
            lemmas::linked_frame(start.headers, after.headers, start.detached, head);
        },
        _ => {},
    }
}

/// No box in use can be missed after one box has turned gray, or has another number of roots and
/// is not white.
proof fn marking_kept<D: CgcCompat>(start: HeapView<D>, after: HeapView<D>, p: usize)
    requires
        start.wf(),
        start.phase is Blacken,
        start.has(p),
        after == (HeapView { headers: after.headers, ..start }),
        forall|q: usize| #[trigger] after.has(q) <==> start.has(q),
        forall|q: usize| q != p && #[trigger] start.has(q) ==> after.header(q) == start.header(q),
        after.header(p).color == start.header(p).color || after.header(p).color == Color::Gray,
        after.header(p).roots > 0 ==> after.header(p).color != Color::White,
    ensures
        after.marking(),
{
    assert forall|q: usize| start.has(q) && start.spared(q) implies #[trigger] after.spared(q) by {
        assert forall|i: int| 0 <= i < after.refs(q).len() implies after.header(
            #[trigger] after.refs(q)[i],
        ).color != Color::White by {
            assert(start.header(start.refs(q)[i]).color != Color::White);
            assert(model::has_all(start.headers, start.refs(q)));
            assert(start.has(start.refs(q)[i]));
        }
    }
    assert forall|q: usize| #[trigger] after.has(q) && after.header(q).roots > 0 implies
        after.header(q).color != Color::White by {
        assert(start.has(q));
    }
    assert forall|q: usize| #[trigger] after.black.contains(q) implies after.header(q).color
        != Color::White && after.spared(q) by {
        assert(start.has(q));
    }
    assert forall|q: usize| #[trigger] after.has(q) && after.header(q).color == Color::Black implies
        after.spared(q) by {
        assert(start.has(q));
    }
    assert forall|q: usize| #[trigger] after.chain.contains(q) implies after.header(q).color
        != Color::White && after.spared(q) by {
        assert(start.has(q));
    }
}

/// A pass keeps what is known of the boxes that it has passed when a black one turns gray: it has
/// not passed that one.
proof fn regrayed_pass<D: CgcCompat>(start: HeapView<D>, after: HeapView<D>, p: usize)
    requires
        start.passing(),
        start.sorted_into_lists(),
        0 <= start.done <= start.detached.len(),
        start.header(p).color == Color::Black,
        after.detached == start.detached,
        after.done == start.done,
        after.header(p).color == Color::Gray,
        forall|q: usize| q != p && #[trigger] start.has(q) ==> after.header(q) == start.header(q),
    ensures
        after.passing(),
{
    assert forall|i: int| 0 <= i < start.detached.len() && start.detached[i] != p implies
        after.header(#[trigger] start.detached[i]).color == start.header(start.detached[i]).color by {
        assert(start.detached.contains(start.detached[i]));
        assert(start.has(start.detached[i]));
    }
    assert forall|i: int| 0 <= i < after.done implies after.header(#[trigger] after.detached[i]).color
        != Color::Black by {
        assert(start.header(start.detached[i]).color != Color::Black);
    }
    if exists|i: int| 0 <= i < after.done && #[trigger] after.gray_at(i) {
        let i = choose|i: int| 0 <= i < after.done && #[trigger] after.gray_at(i);
        assert(start.header(start.detached[i]).color != Color::Black);
        assert(start.gray_at(i));
        let j = choose|j: int| start.done <= j < start.detached.len() && #[trigger] start.gray_at(j);
        assert(after.gray_at(j));
    }
}

/// A pass will still meet a gray box when a white one that it has passed and that is in use turns
/// gray: what holds the white one leads back to a gray box.
proof fn rooted_pass<D: CgcCompat>(start: HeapView<D>, after: HeapView<D>, p: usize)
    requires
        start.wf(),
        start.phase is Blacken,
        start.passing(),
        start.has(p),
        start.live(p),
        start.header(p).color == Color::White,
        after == (HeapView { headers: after.headers, ..start }),
        after.header(p).color == Color::Gray,
        forall|q: usize| q != p && #[trigger] start.has(q) ==> after.header(q) == start.header(q),
    ensures
        after.passing(),
{
    let root = choose|root: usize| #[trigger]
        model::has(start.headers, root) && model::header_at(start.headers, root).roots > 0
            && model::reaches(start.payloads, root, p);
    let path = choose|path: Seq<usize>| #[trigger]
        model::is_path(start.payloads, path) && path.first() == root && path.last() == p;
    assert(start.has(root));
    let i = lemmas::first_white(start.headers, start.payloads, path);
    let q = path[i];
    laws::held_is_there(start);
    darken::path_in_table(start.headers, start.payloads, path, i);
    assert(start.has(q));
    assert(!start.spared(q)) by {
        let j = choose|j: int| 0 <= j < start.refs(q).len() && start.refs(q)[j] == path[i + 1];
        assert(start.header(start.refs(q)[j]).color == Color::White);
    }
    assert(start.header(q).color == Color::Gray);
    assert(!start.chain.contains(q) && !start.black.contains(q));
    let k = choose|k: int| 0 <= k < start.detached.len() && start.detached[k] == q;
    assert(start.gray_at(k));
    let ahead = choose|j: int|
        start.done <= j < start.detached.len() && #[trigger] start.gray_at(j);
    assert(start.done <= ahead < start.detached.len() && start.gray_at(ahead));
    let g = start.detached[ahead];
    assert(start.detached.contains(g));
    assert(start.has(g));
    assert(after.gray_at(ahead));
    assert forall|j: int| 0 <= j < after.done implies after.header(#[trigger] after.detached[j]).color
        != Color::Black by {
        assert(start.detached.contains(start.detached[j]));
        assert(start.has(start.detached[j]));
    }
}

} // verus!
