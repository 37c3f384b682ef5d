use vstd::prelude::*;

use crate::compat::CgcCompat;
use crate::header::{CgcHeader, Color};
use crate::lemmas;
use crate::model;
use crate::model::HeadersView;
use crate::table::Headers;

verus! {

proof fn whites_update(slots: Seq<Option<CgcHeader>>, i: int, slot: Option<CgcHeader>)
    requires
        0 <= i < slots.len(),
    ensures
        model::whites(slots.update(i, slot)) + model::is_white(slots[i]) == model::whites(slots) + model::is_white(slot),
    decreases slots.len(),
{
    let updated = slots.update(i, slot);
    if i == slots.len() - 1 {
        assert(updated.drop_last() =~= slots.drop_last());
    } else {
        assert(updated.drop_last() =~= slots.drop_last().update(i, slot));
        whites_update(slots.drop_last(), i, slot);
    }
}

/// Between the two tables, some white boxes were blackened and nothing else has changed.
pub(crate) open spec fn darker(a: Seq<Option<CgcHeader>>, b: Seq<Option<CgcHeader>>) -> bool {
    &&& a.len() == b.len()
    &&& forall|p: usize| #[trigger] model::has(b, p) <==> model::has(a, p)
    &&& forall|p: usize| #[trigger]
        model::has(b, p) ==> model::header_at(b, p) == model::header_at(a, p) || blackened(a, b, p)
}

/// The box at `p` was white and is black.
pub(crate) open spec fn blackened(
    a: Seq<Option<CgcHeader>>,
    b: Seq<Option<CgcHeader>>,
    p: usize,
) -> bool {
    &&& model::has(a, p)
    &&& model::header_at(a, p).color == Color::White
    &&& model::header_at(b, p) == (CgcHeader { color: Color::Black, ..model::header_at(a, p) })
}

/// No handle in the box at `p` points to a white box.
pub(crate) open spec fn spared<D: CgcCompat>(
    slots: Seq<Option<CgcHeader>>,
    payloads: Seq<Option<D>>,
    p: usize,
) -> bool {
    forall|i: int|
        0 <= i < model::refs_at(payloads, p).len() ==> model::header_at(
            slots,
            #[trigger] model::refs_at(payloads, p)[i],
        ).color != Color::White
}

#[verifier::spinoff_prover]
proof fn darken_all_effect(table: HeadersView, refs: Seq<usize>)
    requires
        model::has_all(table.slots, refs),
    ensures
        ({
            let after = model::darken_all(table, refs);
            &&& darker(table.slots, after.slots)
            &&& forall|p: usize| #[trigger]
                blackened(table.slots, after.slots, p) ==> refs.contains(p) && after.pending.contains(p)
            &&& forall|i: int|
                0 <= i < refs.len() ==> model::header_at(after.slots, #[trigger] refs[i]).color
                    != Color::White
            &&& forall|p: usize| #[trigger]
                after.pending.contains(p) ==> table.pending.contains(p) || blackened(
                    table.slots,
                    after.slots,
                    p,
                )
            &&& forall|p: usize| #[trigger]
                table.pending.contains(p) ==> after.pending.contains(p)
            &&& model::whites(after.slots) + after.pending.len() == model::whites(table.slots)
                + table.pending.len()
        }),
    decreases refs.len(),
{
    if refs.len() > 0 {
        let rest = refs.drop_last();
        let p = refs.last();
        assert forall|i: int| 0 <= i < rest.len() implies model::has(
            table.slots,
            #[trigger] rest[i],
        ) by {
            assert(model::has(table.slots, refs[i]));
        }
        darken_all_effect(table, rest);
        let before = model::darken_all(table, rest);
        let after = model::darken_all(table, refs);
        assert(model::has(table.slots, refs[refs.len() - 1]));
        assert(model::has(before.slots, p));
        assert(refs.contains(p));
        assert forall|q: usize| rest.contains(q) implies refs.contains(q) by {
            let i = choose|i: int| 0 <= i < rest.len() && rest[i] == q;
            assert(refs[i] == q);
        }
        if model::header_at(before.slots, p).color == Color::White {
            let header = CgcHeader { color: Color::Black, ..model::header_at(before.slots, p) };
            whites_update(before.slots, p as int, Some(header));
            assert(after.pending == before.pending.push(p));
            assert(after.pending[before.pending.len() as int] == p);
            assert(blackened(table.slots, after.slots, p));
            assert forall|q: usize| before.pending.contains(q) implies after.pending.contains(
                q,
            ) by {
                let i = choose|i: int| 0 <= i < before.pending.len() && before.pending[i] == q;
                assert(after.pending[i] == q);
            }
        }
        assert forall|q: usize| #[trigger] model::has(after.slots, q) <==> model::has(
            table.slots,
            q,
        ) by {
            assert(model::has(before.slots, q) <==> model::has(table.slots, q));
        }
        assert forall|q: usize| #[trigger] model::has(after.slots, q) implies model::header_at(
            after.slots,
            q,
        ) == model::header_at(table.slots, q) || blackened(table.slots, after.slots, q) by {
            assert(model::has(before.slots, q));
        }
        assert forall|q: usize| #[trigger] blackened(table.slots, after.slots, q) implies
            refs.contains(q) && after.pending.contains(q) by {
            if q != p {
                assert(blackened(table.slots, before.slots, q));
            } else if model::header_at(before.slots, p).color != Color::White {
                assert(blackened(table.slots, before.slots, q));
            }
        }
        assert forall|q: usize| #[trigger] after.pending.contains(q) implies table.pending.contains(
            q,
        ) || blackened(table.slots, after.slots, q) by {
            if q != p {
                let i = choose|i: int| 0 <= i < after.pending.len() && after.pending[i] == q;
                assert(before.pending[i] == q);
                assert(before.pending.contains(q));
            } else if model::header_at(before.slots, p).color != Color::White {
                assert(before.pending.contains(q));
            }
        }
        assert forall|i: int| 0 <= i < refs.len() implies model::header_at(
            after.slots,
            #[trigger] refs[i],
        ).color != Color::White by {
            if i < rest.len() {
                assert(model::header_at(before.slots, rest[i]).color != Color::White);
            }
        }
    }
}

/// Darkens what the box at `from` holds, then what the boxes hold that this has blackened, and so
/// on until nothing is left to do.
pub(crate) fn darken_from<D: CgcCompat>(
    table: &mut Headers,
    payloads: &Vec<Option<D>>,
    from: usize,
)
    requires
        model::closed_under_refs(old(table)@.slots, payloads@),
        model::has(old(table)@.slots, from),
        model::header_at(old(table)@.slots, from).color != Color::White,
        old(table)@.pending.len() == 0,
    ensures
        final(table)@.pending.len() == 0,
        darker(old(table)@.slots, final(table)@.slots),
        forall|p: usize| #[trigger]
            model::has(old(table)@.slots, p) && model::header_at(old(table)@.slots, p).color
                == Color::White ==> (blackened(old(table)@.slots, final(table)@.slots, p)
                <==> model::reaches_white(old(table)@.slots, payloads@, from, p)),
        forall|p: usize| #[trigger]
            blackened(old(table)@.slots, final(table)@.slots, p) ==> spared(
                final(table)@.slots,
                payloads@,
                p,
            ),
        spared(final(table)@.slots, payloads@, from),
{
    let ghost start = table@.slots;
    match &payloads[from] {
        Some(value) => value.darken(table),
        None => {},
    }
    proof {
        darkening_first(old(table)@, table@, payloads@, from);
    }
    loop
        invariant
            model::closed_under_refs(start, payloads@),
            model::has(start, from),
            model::header_at(start, from).color != Color::White,
            darkening(start, table@, payloads@, from),
        ensures
            table@.pending.len() == 0,
        decreases model::whites(table@.slots) + table@.pending.len(),
    {
        let ghost before = table@;
        let next = table.next_pending();
        match next {
            None => {
                break;
            },
            Some(p) => {
                proof {
                    pending_is_there(start, before, payloads@, from);
                }
                match &payloads[p] {
                    Some(value) => value.darken(table),
                    None => {},
                }
                proof {
                    darkening_step(start, before, table@, payloads@, from);
                }
            },
        }
    }
    proof {
        darkening_end(start, table@, payloads@, from);
    }
}

/// What is known while what a box reaches is darkened.
pub(crate) open spec fn darkening<D: CgcCompat>(
    start: Seq<Option<CgcHeader>>,
    now: HeadersView,
    payloads: Seq<Option<D>>,
    from: usize,
) -> bool {
    &&& darker(start, now.slots)
    &&& forall|p: usize| #[trigger]
        blackened(start, now.slots, p) ==> model::reaches_white(start, payloads, from, p)
    &&& forall|p: usize| #[trigger] now.pending.contains(p) ==> blackened(start, now.slots, p)
    &&& forall|p: usize| #[trigger]
        blackened(start, now.slots, p) && !now.pending.contains(p) ==> spared(
            now.slots,
            payloads,
            p,
        )
    &&& spared(now.slots, payloads, from)
}

/// What is known once what the first box holds was darkened.
proof fn darkening_first<D: CgcCompat>(
    before: HeadersView,
    after: HeadersView,
    payloads: Seq<Option<D>>,
    from: usize,
)
    requires
        model::closed_under_refs(before.slots, payloads),
        model::has(before.slots, from),
        before.pending.len() == 0,
        after == model::darken_all(before, model::refs_at(payloads, from)),
    ensures
        darkening(before.slots, after, payloads, from),
        model::whites(after.slots) + after.pending.len() == model::whites(before.slots),
{
    let refs = model::refs_at(payloads, from);
    darken_all_effect(before, refs);
    assert forall|p: usize| #[trigger] blackened(before.slots, after.slots, p) implies
        model::reaches_white(before.slots, payloads, from, p) by {
        let path = seq![from];
        assert(model::is_path(payloads, path));
        lemmas::path_push(payloads, path, p);
        let longer = path.push(p);
        assert(longer.first() == from && longer.last() == p);
        assert(model::all_white_after(before.slots, longer));
    }
}

/// The box whose contents are darkened next is there, and so is what it holds.
proof fn pending_is_there<D: CgcCompat>(
    start: Seq<Option<CgcHeader>>,
    before: HeadersView,
    payloads: Seq<Option<D>>,
    from: usize,
)
    requires
        model::closed_under_refs(start, payloads),
        darkening(start, before, payloads, from),
        before.pending.len() > 0,
    ensures
        model::has(start, before.pending.last()),
        model::has_all(before.slots, model::refs_at(payloads, before.pending.last())),
{
    let p = before.pending.last();
    assert(before.pending.contains(p)) by {
        assert(before.pending[before.pending.len() - 1] == p);
    }
    assert(blackened(start, before.slots, p));
    assert(model::has(start, p));
    assert forall|i: int| 0 <= i < model::refs_at(payloads, p).len() implies model::has(
        before.slots,
        #[trigger] model::refs_at(payloads, p)[i],
    ) by {
        assert(model::has(start, model::refs_at(payloads, p)[i]));
    }
}

/// What is known while darkening goes on is still known once the contents of one more box have
/// been darkened.
proof fn darkening_step<D: CgcCompat>(
    start: Seq<Option<CgcHeader>>,
    before: HeadersView,
    after: HeadersView,
    payloads: Seq<Option<D>>,
    from: usize,
)
    requires
        model::closed_under_refs(start, payloads),
        model::has(start, from),
        darkening(start, before, payloads, from),
        before.pending.len() > 0,
        after == model::darken_pending(before, payloads),
    ensures
        darkening(start, after, payloads, from),
        model::whites(after.slots) + after.pending.len() + 1 == model::whites(before.slots)
            + before.pending.len(),
{
    let popped = HeadersView {
        slots: before.slots,
        pending: before.pending.drop_last(),
    };
    pending_is_there(start, before, payloads, from);
    darken_step(start, before, popped, after, payloads, from, before.pending.last());
}

/// Once nothing is left to do, exactly what the box reaches over white boxes has been blackened.
proof fn darkening_end<D: CgcCompat>(
    start: Seq<Option<CgcHeader>>,
    after: HeadersView,
    payloads: Seq<Option<D>>,
    from: usize,
)
    requires
        model::closed_under_refs(start, payloads),
        model::has(start, from),
        model::header_at(start, from).color != Color::White,
        darkening(start, after, payloads, from),
        after.pending.len() == 0,
    ensures
        forall|p: usize| #[trigger]
            model::has(start, p) && model::header_at(start, p).color == Color::White ==> (blackened(
                start,
                after.slots,
                p,
            ) <==> model::reaches_white(start, payloads, from, p)),
{
    assert forall|p: usize| #[trigger]
        model::has(start, p) && model::header_at(start, p).color == Color::White implies (blackened(
        start,
        after.slots,
        p,
    ) <==> model::reaches_white(start, payloads, from, p)) by {
        assert(model::has(after.slots, p));
        if model::reaches_white(start, payloads, from, p) && !blackened(start, after.slots, p) {
            let path = choose|path: Seq<usize>| #[trigger]
                model::is_path(payloads, path) && path.len() > 1 && path.first() == from
                    && path.last() == p && model::all_white_after(start, path);
            assert(model::has(after.slots, from));
            let i = lemmas::first_white(after.slots, payloads, path);
            let q = path[i];
            assert(spared(after.slots, payloads, q)) by {
                if i > 0 {
                    path_in_table(start, payloads, path, i);
                    assert(model::has(after.slots, q));
                    assert(blackened(start, after.slots, q));
                }
            }
            let j = choose|j: int|
                0 <= j < model::refs_at(payloads, q).len() && model::refs_at(payloads, q)[j]
                    == path[i + 1];
            assert(model::header_at(after.slots, model::refs_at(payloads, q)[j]).color
                != Color::White);
        }
    }
}

/// Every box on a path that starts at a box is there.
pub(crate) proof fn path_in_table<D: CgcCompat>(
    slots: Seq<Option<CgcHeader>>,
    payloads: Seq<Option<D>>,
    path: Seq<usize>,
    i: int,
)
    requires
        model::closed_under_refs(slots, payloads),
        model::is_path(payloads, path),
        model::has(slots, path.first()),
        0 <= i < path.len(),
    ensures
        model::has(slots, path[i]),
    decreases i,
{
    if i > 0 {
        path_in_table(slots, payloads, path, i - 1);
        assert(model::refs_at(payloads, path[i - 1]).contains(path[i - 1 + 1]));
        let refs = model::refs_at(payloads, path[i - 1]);
        let j = choose|j: int| 0 <= j < refs.len() && refs[j] == path[i];
        assert(model::has(slots, refs[j]));
    }
}

#[verifier::spinoff_prover]
proof fn darken_step<D: CgcCompat>(
    start: Seq<Option<CgcHeader>>,
    before: HeadersView,
    popped: HeadersView,
    after: HeadersView,
    payloads: Seq<Option<D>>,
    from: usize,
    p: usize,
)
    requires
        model::closed_under_refs(start, payloads),
        darker(start, before.slots),
        forall|q: usize| #[trigger]
            blackened(start, before.slots, q) ==> model::reaches_white(start, payloads, from, q),
        forall|q: usize| #[trigger]
            before.pending.contains(q) ==> blackened(start, before.slots, q),
        forall|q: usize| #[trigger]
            blackened(start, before.slots, q) && !before.pending.contains(q) ==> spared(
                before.slots,
                payloads,
                q,
            ),
        spared(before.slots, payloads, from),
        before.pending.len() > 0,
        p == before.pending.last(),
        popped.slots == before.slots,
        popped.pending == before.pending.drop_last(),
        model::has_all(popped.slots, model::refs_at(payloads, p)),
        after == model::darken_all(popped, model::refs_at(payloads, p)),
        model::has(start, from),
    ensures
        darker(start, after.slots),
        forall|q: usize| #[trigger]
            blackened(start, after.slots, q) ==> model::reaches_white(start, payloads, from, q),
        forall|q: usize| #[trigger] after.pending.contains(q) ==> blackened(start, after.slots, q),
        forall|q: usize| #[trigger]
            blackened(start, after.slots, q) && !after.pending.contains(q) ==> spared(
                after.slots,
                payloads,
                q,
            ),
        spared(after.slots, payloads, from),
        model::whites(after.slots) + after.pending.len() + 1 == model::whites(before.slots)
            + before.pending.len(),
{
    let refs = model::refs_at(payloads, p);
    darken_all_effect(popped, refs);
    assert(before.pending[before.pending.len() - 1] == p);
    assert(before.pending.contains(p));
    assert forall|q: usize| #[trigger] model::has(after.slots, q) <==> model::has(start, q) by {
        assert(model::has(before.slots, q) <==> model::has(start, q));
    }
    assert forall|q: usize| #[trigger] model::has(after.slots, q) implies model::header_at(
        after.slots,
        q,
    ) == model::header_at(start, q) || blackened(start, after.slots, q) by {
        assert(model::has(before.slots, q));
    }
    assert forall|q: usize| #[trigger] blackened(start, after.slots, q) implies
        model::reaches_white(start, payloads, from, q) by {
        assert(model::has(before.slots, q));
        if !blackened(start, before.slots, q) {
            assert(blackened(popped.slots, after.slots, q));
            let path = choose|path: Seq<usize>| #[trigger]
                model::is_path(payloads, path) && path.len() > 1 && path.first() == from
                    && path.last() == p && model::all_white_after(start, path);
            assert(model::reaches_white(start, payloads, from, p));
            lemmas::path_push(payloads, path, q);
            let longer = path.push(q);
            assert(longer.first() == from && longer.last() == q);
            assert forall|i: int| 1 <= i < longer.len() implies model::has(
                start,
                #[trigger] longer[i],
            ) && model::header_at(start, longer[i]).color == Color::White by {
                if i < path.len() {
                    assert(model::header_at(start, path[i]).color == Color::White);
                }
            }
            assert(model::all_white_after(start, longer));
        }
    }
    assert forall|q: usize| #[trigger] after.pending.contains(q) implies blackened(
        start,
        after.slots,
        q,
    ) by {
        if popped.pending.contains(q) {
            let i = choose|i: int| 0 <= i < popped.pending.len() && popped.pending[i] == q;
            assert(before.pending[i] == q);
            assert(before.pending.contains(q));
            assert(blackened(start, before.slots, q));
            assert(model::has(after.slots, q));
        } else {
            assert(blackened(popped.slots, after.slots, q));
            assert(model::has(before.slots, q));
        }
    }
    assert forall|q: usize| spared(before.slots, payloads, q) && model::has(start, q) implies
        #[trigger] spared(after.slots, payloads, q) by {
        assert forall|i: int| 0 <= i < model::refs_at(payloads, q).len() implies model::header_at(
            after.slots,
            #[trigger] model::refs_at(payloads, q)[i],
        ).color != Color::White by {
            assert(model::header_at(before.slots, model::refs_at(payloads, q)[i]).color
                != Color::White);
            assert(model::has_all(start, model::refs_at(payloads, q)));
            assert(model::has(start, model::refs_at(payloads, q)[i]));
            assert(model::has(after.slots, model::refs_at(payloads, q)[i]));
        }
    }
    assert forall|q: usize| #[trigger] blackened(start, after.slots, q)
        && !after.pending.contains(q) implies spared(after.slots, payloads, q) by {
        if q == p {
            assert forall|i: int|
                0 <= i < model::refs_at(payloads, q).len() implies model::header_at(
                after.slots,
                #[trigger] model::refs_at(payloads, q)[i],
            ).color != Color::White by {
                assert(refs[i] == model::refs_at(payloads, q)[i]);
            }
        } else {
            assert(!blackened(popped.slots, after.slots, q));
            assert(model::has(before.slots, q));
            assert(blackened(start, before.slots, q));
            if before.pending.contains(q) {
                let i = choose|i: int| 0 <= i < before.pending.len() && before.pending[i] == q;
                assert(popped.pending[i] == q);
                assert(popped.pending.contains(q));
            }
        }
    }
}

/// The table with the white box at `p` blackened.
pub(crate) open spec fn blackened_at(
    slots: Seq<Option<CgcHeader>>,
    p: usize,
) -> Seq<Option<CgcHeader>> {
    model::set_header(
        slots,
        p,
        (CgcHeader { color: Color::Black, ..model::header_at(slots, p) }),
    )
}

/// What is known after some steps of darkening a white box.
pub(crate) proof fn darkening_known<D: CgcCompat>(
    table: HeadersView,
    payloads: Seq<Option<D>>,
    p: usize,
    tables: Seq<HeadersView>,
    i: int,
)
    requires
        model::closed_under_refs(table.slots, payloads),
        table.pending.len() == 0,
        model::has(table.slots, p),
        model::header_at(table.slots, p).color == Color::White,
        model::is_darkening(tables, payloads),
        tables.first() == model::darken_one(table, p),
        0 <= i < tables.len(),
    ensures
        i > 0 ==> darkening(blackened_at(table.slots, p), tables[i], payloads, p),
        model::whites(tables[i].slots) + tables[i].pending.len() + i == model::whites(table.slots),
    decreases i,
{
    let start = blackened_at(table.slots, p);
    whites_update(
        table.slots,
        p as int,
        Some(CgcHeader { color: Color::Black, ..model::header_at(table.slots, p) }),
    );
    assert forall|q: usize| #[trigger] model::has(start, q) implies q < payloads.len()
        && payloads[q as int] is Some && model::has_all(start, model::refs_at(payloads, q)) by {
        assert(model::has(table.slots, q));
        assert forall|j: int| 0 <= j < model::refs_at(payloads, q).len() implies model::has(
            start,
            #[trigger] model::refs_at(payloads, q)[j],
        ) by {
            assert(model::has(table.slots, model::refs_at(payloads, q)[j]));
        }
    }
    if i > 0 {
        darkening_known(table, payloads, p, tables, i - 1);
        let before = tables[i - 1];
        assert(tables[i - 1 + 1] == model::darken_pending(before, payloads));
        if i == 1 {
            assert(before.pending.last() == p);
            let popped = HeadersView {
                slots: before.slots,
                pending: before.pending.drop_last(),
            };
            darkening_first(popped, tables[i], payloads, p);
        } else {
            darkening_step(start, before, tables[i], payloads, p);
        }
    }
}

/// What a white box has been found to reach once nothing is left to do.
pub(crate) proof fn darkening_done<D: CgcCompat>(
    table: HeadersView,
    payloads: Seq<Option<D>>,
    p: usize,
    tables: Seq<HeadersView>,
    q: usize,
)
    requires
        model::closed_under_refs(table.slots, payloads),
        table.pending.len() == 0,
        model::has(table.slots, p),
        model::header_at(table.slots, p).color == Color::White,
        model::is_darkening(tables, payloads),
        tables.first() == model::darken_one(table, p),
        tables.last().pending.len() == 0,
    ensures
        model::has(tables.last().slots, q) <==> model::has(table.slots, q),
        model::has(table.slots, q) ==> model::header_at(tables.last().slots, q) == (CgcHeader {
            color: if model::header_at(table.slots, q).color == Color::White && (q == p
                || model::reaches_white(table.slots, payloads, p, q)) {
                Color::Black
            } else {
                model::header_at(table.slots, q).color
            },
            ..model::header_at(table.slots, q)
        }),
{
    let start = blackened_at(table.slots, p);
    let n = tables.len() - 1;
    assert(n > 0);
    darkening_known(table, payloads, p, tables, n);
    assert forall|r: usize| #[trigger] model::has(start, r) implies r < payloads.len()
        && payloads[r as int] is Some && model::has_all(start, model::refs_at(payloads, r)) by {
        assert(model::has(table.slots, r));
        assert forall|j: int| 0 <= j < model::refs_at(payloads, r).len() implies model::has(
            start,
            #[trigger] model::refs_at(payloads, r)[j],
        ) by {
            assert(model::has(table.slots, model::refs_at(payloads, r)[j]));
        }
    }
    darkening_end(start, tables[n], payloads, p);
    assert(model::has(tables[n].slots, q) <==> model::has(start, q));
    if model::has(table.slots, q) && q != p {
        assert(model::has(start, q));
        if model::reaches_white(table.slots, payloads, p, q) {
            let path = choose|path: Seq<usize>| #[trigger]
                model::is_path(payloads, path) && path.len() > 1 && path.first() == p
                    && path.last() == q && model::all_white_after(table.slots, path);
            reaches_without_return(table.slots, payloads, p, q, path);
        }
        if model::reaches_white(start, payloads, p, q) {
            let path = choose|path: Seq<usize>| #[trigger]
                model::is_path(payloads, path) && path.len() > 1 && path.first() == p
                    && path.last() == q && model::all_white_after(start, path);
            assert(model::all_white_after(table.slots, path)) by {
                assert forall|i: int| 1 <= i < path.len() implies model::has(
                    table.slots,
                    #[trigger] path[i],
                ) && model::header_at(table.slots, path[i]).color == Color::White by {
                    assert(model::has(start, path[i]));
                }
            }
        }
    }
}

/// What can be reached over white boxes can be reached without coming back to where the path
/// starts.
proof fn reaches_without_return<D: CgcCompat>(
    slots: Seq<Option<CgcHeader>>,
    payloads: Seq<Option<D>>,
    p: usize,
    q: usize,
    path: Seq<usize>,
)
    requires
        model::is_path(payloads, path),
        path.len() > 1,
        path.first() == p,
        path.last() == q,
        q != p,
        model::has(slots, p),
        model::all_white_after(slots, path),
    ensures
        model::reaches_white(blackened_at(slots, p), payloads, p, q),
    decreases path.len(),
{
    let start = blackened_at(slots, p);
    if exists|i: int| 1 <= i < path.len() && path[i] == p {
        let i = choose|i: int| 1 <= i < path.len() && path[i] == p;
        let rest = path.skip(i);
        assert forall|j: int| 0 <= j < rest.len() - 1 implies model::refs_at(
            payloads,
            #[trigger] rest[j],
        ).contains(rest[j + 1]) by {
            assert(model::refs_at(payloads, path[i + j]).contains(path[i + j + 1]));
        }
        assert forall|j: int| 1 <= j < rest.len() implies model::has(slots, #[trigger] rest[j])
            && model::header_at(slots, rest[j]).color == Color::White by {
            assert(model::has(slots, path[i + j]));
        }
        reaches_without_return(slots, payloads, p, q, rest);
    } else {
        assert forall|i: int| 1 <= i < path.len() implies model::has(start, #[trigger] path[i])
            && model::header_at(start, path[i]).color == Color::White by {
            assert(model::has(slots, path[i]));
        }
        assert(model::all_white_after(start, path));
    }
}

} // verus!
