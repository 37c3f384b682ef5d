use vstd::prelude::*;

use crate::compat::CgcCompat;
use crate::header::{CgcHeader, Color};
use crate::model;
use crate::model::HeapView;

verus! {

/// What a slot adds to the total.
pub(crate) open spec fn weight(slot: Option<CgcHeader>) -> nat {
    match slot {
        Some(header) => header.size as nat,
        None => 0,
    }
}

pub(crate) proof fn total_push(slots: Seq<Option<CgcHeader>>, slot: Option<CgcHeader>)
    ensures
        model::total(slots.push(slot)) == model::total(slots) + weight(slot),
{
    assert(slots.push(slot).drop_last() =~= slots);
}

pub(crate) proof fn total_update(slots: Seq<Option<CgcHeader>>, i: int, slot: Option<CgcHeader>)
    requires
        0 <= i < slots.len(),
    ensures
        model::total(slots.update(i, slot)) + weight(slots[i]) == model::total(slots) + weight(
            slot,
        ),
    decreases slots.len(),
{
    let updated = slots.update(i, slot);
    if i == slots.len() - 1 {
        assert(updated.drop_last() =~= slots.drop_last());
    } else {
        assert(updated.drop_last() =~= slots.drop_last().update(i, slot));
        total_update(slots.drop_last(), i, slot);
    }
}

/// The same boxes with the same sizes take the same number of bytes.
pub(crate) proof fn total_same(a: Seq<Option<CgcHeader>>, b: Seq<Option<CgcHeader>>)
    requires
        a.len() == b.len(),
        forall|i: int| 0 <= i < a.len() ==> weight(#[trigger] a[i]) == weight(b[i]),
    ensures
        model::total(a) == model::total(b),
    decreases a.len(),
{
    if a.len() > 0 {
        assert forall|i: int| 0 <= i < a.len() - 1 implies weight(#[trigger] a.drop_last()[i])
            == weight(b.drop_last()[i]) by {
            assert(weight(a[i]) == weight(b[i]));
        }
        total_same(a.drop_last(), b.drop_last());
        assert(weight(a[a.len() - 1]) == weight(b[a.len() - 1]));
    }
}

pub(crate) proof fn total_covers(slots: Seq<Option<CgcHeader>>, i: int)
    requires
        0 <= i < slots.len(),
    ensures
        weight(slots[i]) <= model::total(slots),
{
    total_update(slots, i, None);
}

/// What unrooting does to each box, as long as each has enough roots.
pub(crate) proof fn unroot_all_counts(slots: Seq<Option<CgcHeader>>, refs: Seq<usize>)
    requires
        model::has_all(slots, refs),
        forall|p: usize| #[trigger]
            model::has(slots, p) ==> model::occurrences(refs, p) <= model::header_at(slots, p).roots,
    ensures
        model::unroot_all(slots, refs).len() == slots.len(),
        forall|p: usize| #[trigger]
            model::has(model::unroot_all(slots, refs), p) <==> model::has(slots, p),
        forall|p: usize| #[trigger]
            model::has(slots, p) ==> model::header_at(model::unroot_all(slots, refs), p) == (
            CgcHeader {
                roots: (model::header_at(slots, p).roots - model::occurrences(refs, p)) as usize,
                ..model::header_at(slots, p)
            }),
    decreases refs.len(),
{
    if refs.len() > 0 {
        let rest = refs.drop_last();
        assert forall|i: int| 0 <= i < rest.len() implies model::has(slots, #[trigger] rest[i]) by {
            assert(model::has(slots, refs[i]));
        }
        unroot_all_counts(slots, rest);
        assert(model::has(slots, refs[refs.len() - 1]));
        let before = model::unroot_all(slots, rest);
        assert(model::has(before, refs.last()));
        assert forall|p: usize| #[trigger] model::has(slots, p) implies model::header_at(
            model::unroot_all(slots, refs),
            p,
        ) == (CgcHeader {
            roots: (model::header_at(slots, p).roots - model::occurrences(refs, p)) as usize,
            ..model::header_at(slots, p)
        }) by {
            assert(model::has(before, p));
        }
        assert forall|p: usize| #[trigger]
            model::has(model::unroot_all(slots, refs), p) <==> model::has(slots, p) by {
            assert(model::has(before, p) <==> model::has(slots, p));
        }
    }
}

pub(crate) proof fn occurs(refs: Seq<usize>, i: int)
    requires
        0 <= i < refs.len(),
    ensures
        model::occurrences(refs, refs[i]) > 0,
    decreases refs.len(),
{
    if i < refs.len() - 1 {
        assert(refs.drop_last()[i] == refs[i]);
        occurs(refs.drop_last(), i);
    }
}

pub(crate) proof fn occurs_not(refs: Seq<usize>, p: usize)
    requires
        !refs.contains(p),
    ensures
        model::occurrences(refs, p) == 0,
    decreases refs.len(),
{
    if refs.len() > 0 {
        assert(refs[refs.len() - 1] != p);
        assert(!refs.drop_last().contains(p)) by {
            if refs.drop_last().contains(p) {
                let i = choose|i: int| 0 <= i < refs.len() - 1 && refs.drop_last()[i] == p;
                assert(refs[i] == p);
            }
        }
        occurs_not(refs.drop_last(), p);
    }
}

/// A list stays linked when its boxes keep their links.
pub(crate) proof fn linked_frame(
    a: Seq<Option<CgcHeader>>,
    b: Seq<Option<CgcHeader>>,
    list: Seq<usize>,
    head: usize,
)
    requires
        model::linked(a, list, head),
        forall|p: usize| #[trigger]
            list.contains(p) ==> model::has(b, p) && model::header_at(b, p).next
                == model::header_at(a, p).next,
    ensures
        model::linked(b, list, head),
{
    assert forall|i: int| 0 <= i < list.len() implies model::has(b, #[trigger] list[i])
        && model::header_at(b, list[i]).next == model::first_of(list, i + 1) by {
        assert(list.contains(list[i]));
    }
}

/// On a path that starts at a box that is not white and ends at one that is, some box that is
/// not white holds a white one.
pub(crate) proof fn first_white<D: CgcCompat>(
    slots: Seq<Option<CgcHeader>>,
    payloads: Seq<Option<D>>,
    path: Seq<usize>,
) -> (i: int)
    requires
        model::is_path(payloads, path),
        model::header_at(slots, path.first()).color != Color::White,
        model::header_at(slots, path.last()).color == Color::White,
    ensures
        0 <= i < path.len() - 1,
        model::header_at(slots, path[i]).color != Color::White,
        model::header_at(slots, path[i + 1]).color == Color::White,
        model::refs_at(payloads, path[i]).contains(path[i + 1]),
    decreases path.len(),
{
    let n = path.len();
    if n == 1 {
        assert(false);
        0
    } else if model::header_at(slots, path[n - 2]).color != Color::White {
        assert(model::refs_at(payloads, path[n - 2]).contains(path[n - 2 + 1]));
        n - 2
    } else {
        let shorter = path.drop_last();
        assert forall|i: int| 0 <= i < shorter.len() - 1 implies model::refs_at(
            payloads,
            #[trigger] shorter[i],
        ).contains(shorter[i + 1]) by {
            assert(model::refs_at(payloads, path[i]).contains(path[i + 1]));
        }
        first_white(slots, payloads, shorter)
    }
}

/// A path may be made longer by what its last box holds.
pub(crate) proof fn path_push<D: CgcCompat>(
    payloads: Seq<Option<D>>,
    path: Seq<usize>,
    to: usize,
)
    requires
        model::is_path(payloads, path),
        model::refs_at(payloads, path.last()).contains(to),
    ensures
        model::is_path(payloads, path.push(to)),
{
    let longer = path.push(to);
    assert forall|i: int| 0 <= i < longer.len() - 1 implies model::refs_at(
        payloads,
        #[trigger] longer[i],
    ).contains(longer[i + 1]) by {
        if i < path.len() - 1 {
            assert(model::refs_at(payloads, path[i]).contains(path[i + 1]));
        }
    }
}

/// Every box reaches itself.
pub(crate) proof fn reaches_self<D: CgcCompat>(payloads: Seq<Option<D>>, p: usize)
    ensures
        model::reaches(payloads, p, p),
{
    assert(model::is_path(payloads, seq![p]));
}

pub(crate) proof fn reaches_next<D: CgcCompat>(
    payloads: Seq<Option<D>>,
    from: usize,
    by: usize,
    to: usize,
)
    requires
        model::reaches(payloads, from, by),
        model::refs_at(payloads, by).contains(to),
    ensures
        model::reaches(payloads, from, to),
{
    let path = choose|path: Seq<usize>| #[trigger]
        model::is_path(payloads, path) && path.first() == from && path.last() == by;
    path_push(payloads, path, to);
    let longer = path.push(to);
    assert(longer.first() == from && longer.last() == to);
}

/// The boxes stay filled when the same boxes hold the same values.
pub(crate) proof fn filled_frame<D: CgcCompat>(a: HeapView<D>, b: HeapView<D>)
    requires
        a.filled(),
        b.headers.len() == a.headers.len(),
        b.payloads == a.payloads,
        forall|p: usize| #[trigger] b.has(p) <==> a.has(p),
        forall|p: usize| a.doomed(p) ==> #[trigger] b.doomed(p),
    ensures
        b.filled(),
{
    assert forall|p: usize| #[trigger] b.has(p) && !b.doomed(p) implies model::has_all(
        b.headers,
        b.refs(p),
    ) by {
        assert(a.has(p));
        assert(model::has_all(a.headers, a.refs(p)));
        assert forall|i: int| 0 <= i < b.refs(p).len() implies model::has(
            b.headers,
            #[trigger] b.refs(p)[i],
        ) by {
            assert(a.has(a.refs(p)[i]));
            assert(b.has(b.refs(p)[i]));
        }
    }
    assert forall|p: usize| #[trigger] b.has(p) implies b.payload(p).flagged(false) by {
        assert(a.has(p));
    }
    assert forall|p: usize| #![trigger b.has(p)] p < b.headers.len() implies (b.has(p)
        <==> b.payloads[p as int] is Some) by {
        assert(a.has(p) == b.has(p));
    }
}

/// The boxes stay sorted into lists when there are the same boxes and the same lists.
pub(crate) proof fn sorted_frame<D: CgcCompat>(a: HeapView<D>, b: HeapView<D>)
    requires
        a.sorted_into_lists(),
        b.chain == a.chain,
        b.detached == a.detached,
        b.black == a.black,
        forall|p: usize| #[trigger] b.has(p) <==> a.has(p),
    ensures
        b.sorted_into_lists(),
{
    assert forall|p: usize| #[trigger] b.has(p) <==> b.chain.contains(p) || b.detached.contains(p)
        || b.black.contains(p) by {
        assert(a.has(p) <==> b.has(p));
    }
}

/// A list stays linked when a box is taken out and the one before it, or the head, is linked to
/// the one after it.
pub(crate) proof fn linked_remove(
    a: Seq<Option<CgcHeader>>,
    b: Seq<Option<CgcHeader>>,
    list: Seq<usize>,
    i: int,
    head: usize,
    new_head: usize,
)
    requires
        model::linked(a, list, head),
        list.no_duplicates(),
        0 <= i < list.len(),
        forall|p: usize| #[trigger] model::has(b, p) <==> model::has(a, p),
        forall|p: usize| #[trigger]
            list.contains(p) && p != list[i] && (i > 0 ==> p != list[i - 1]) ==> model::header_at(
                b,
                p,
            ).next == model::header_at(a, p).next,
        i == 0 ==> new_head == model::first_of(list, 1),
        i > 0 ==> new_head == head && model::header_at(b, list[i - 1]).next == model::first_of(
            list,
            i + 1,
        ),
    ensures
        model::linked(b, list.remove(i), new_head),
{
    let rest = list.remove(i);
    assert forall|j: int| 0 <= j < rest.len() implies model::has(b, #[trigger] rest[j])
        && model::header_at(b, rest[j]).next == model::first_of(rest, j + 1) by {
        let k = if j < i {
            j
        } else {
            j + 1
        };
        assert(rest[j] == list[k]);
        assert(list.contains(list[k]));
        assert(model::has(a, list[k]));
        assert(model::has(b, list[k]));
    }
}

/// A list stays linked when a box that is linked to its head is put in front.
pub(crate) proof fn linked_front(
    slots: Seq<Option<CgcHeader>>,
    list: Seq<usize>,
    head: usize,
    p: usize,
)
    requires
        model::linked(slots, list, head),
        model::has(slots, p),
        model::header_at(slots, p).next == head,
    ensures
        model::linked(slots, seq![p] + list, p),
{
    let longer = seq![p] + list;
    assert forall|j: int| 0 <= j < longer.len() implies model::has(slots, #[trigger] longer[j])
        && model::header_at(slots, longer[j]).next == model::first_of(longer, j + 1) by {
        if j > 0 {
            assert(longer[j] == list[j - 1]);
        }
    }
}

/// Two lists are linked into one when the last box of the first is linked to the head of the
/// second.
pub(crate) proof fn linked_concat(
    a: Seq<Option<CgcHeader>>,
    b: Seq<Option<CgcHeader>>,
    first: Seq<usize>,
    second: Seq<usize>,
    head: usize,
    middle: usize,
)
    requires
        model::linked(a, first, head),
        model::linked(b, second, middle),
        first.len() > 0,
        first.no_duplicates(),
        forall|p: usize| #[trigger] model::has(b, p) <==> model::has(a, p),
        forall|p: usize| #[trigger]
            first.contains(p) && p != first.last() ==> model::header_at(b, p).next
                == model::header_at(a, p).next,
        model::header_at(b, first.last()).next == middle,
    ensures
        model::linked(b, first + second, head),
{
    let whole = first + second;
    assert forall|j: int| 0 <= j < whole.len() implies model::has(b, #[trigger] whole[j])
        && model::header_at(b, whole[j]).next == model::first_of(whole, j + 1) by {
        if j < first.len() {
            assert(first.contains(first[j]));
            assert(model::has(a, first[j]));
            assert(model::has(b, first[j]));
        } else {
            assert(whole[j] == second[j - first.len()]);
        }
    }
}

/// The colors go on being right when nothing has changed but how far the pass has come.
pub(crate) proof fn marking_frame<D: CgcCompat>(a: HeapView<D>, b: HeapView<D>)
    requires
        a.marking(),
        b.headers == a.headers,
        b.payloads == a.payloads,
        b.chain == a.chain,
        b.black == a.black,
    ensures
        b.marking(),
{
    assert forall|p: usize| a.spared(p) implies #[trigger] b.spared(p) by {
        assert forall|i: int| 0 <= i < b.refs(p).len() implies b.header(
            #[trigger] b.refs(p)[i],
        ).color != Color::White by {
            assert(a.header(a.refs(p)[i]).color != Color::White);
        }
    }
    assert forall|p: usize| b.has(p) implies a.has(p) by {}
}

/// A heap stays well formed when only these two change: how much may be allocated, and whether a
/// collection has been started.
pub(crate) proof fn wf_frame<D: CgcCompat>(a: HeapView<D>, b: HeapView<D>)
    requires
        a.wf(),
        b == (HeapView { heap_space: b.heap_space, collecting: b.collecting, ..a }),
    ensures
        b.wf(),
{
    assert(forall|p: usize| #[trigger] b.has(p) <==> a.has(p));
    filled_frame(a, b);
    sorted_frame(a, b);
    if a.phase is Blacken {
        marking_frame(a, b);
        if !a.phase->saw_grays && exists|i: int| 0 <= i < b.done && #[trigger] b.gray_at(i) {
            let i = choose|i: int| 0 <= i < b.done && #[trigger] b.gray_at(i);
            assert(a.gray_at(i));
            let j = choose|j: int| a.done <= j < a.detached.len() && #[trigger] a.gray_at(j);
            assert(b.gray_at(j));
        }
    }
    if a.phase is Whiten {
        assert forall|i: int| 0 <= i < b.done implies b.whitened(#[trigger] b.chain[i]) by {
            assert(a.whitened(a.chain[i]));
        }
    }
    if a.phase is Sweep {
        assert forall|p: usize, i: int| #![trigger b.has(p), b.refs(p)[i]]
            b.has(p) && !b.detached.contains(p) && 0 <= i < b.refs(p).len() implies
            !b.detached.contains(b.refs(p)[i]) by {
            assert(a.has(p));
            assert(!a.detached.contains(a.refs(p)[i]));
        }
    }
}

} // verus!
