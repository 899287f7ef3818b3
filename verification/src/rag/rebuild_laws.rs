//! What holds of every rebuild, whatever succeeds and whatever fails on its way.
use vstd::prelude::*;

use crate::rag::chunk::{chunk_texts, chunk_view, document_chunks};
use crate::rag::chunk_laws::chunks_fit;
use crate::rag::laws::{
    lemma_filter_multiset, lemma_map_multiset, mirrors, stored_docs, uploads_are_the_rest,
};
use crate::rag::rebuild::{
    action_of, after, chunked, onward, started, Phase, RebuildActionView, RebuildView,
};
use crate::rag::store::{lemma_filter_all, lemma_filter_none, rows_of, Stored};
use crate::rag::system::{docs_of, uploads_of, DocumentView};
use crate::rag::types::{ChunkView, RagConfigView};
use crate::text::all_white;

verus! {

// ── Runs ─────────────────────────────────────────────────────────────────────

/// A rebuild after a number of events.
pub open spec fn run(s: RebuildView, events: Seq<bool>) -> RebuildView
    decreases events.len(),
{
    if events.len() == 0 {
        s
    } else {
        after(run(s, events.drop_last()), events.last())
    }
}

/// The store after a number of events: only a replacement that succeeded changes
/// it, and one that failed is rolled back.
pub open spec fn stored_after(
    rows: Seq<Stored>,
    s: RebuildView,
    events: Seq<bool>,
    embedded: bool,
) -> Seq<Stored>
    decreases events.len(),
{
    if events.len() == 0 {
        rows
    } else {
        let before = run(s, events.drop_last());
        match action_of(before) {
            RebuildActionView::Replace(chunks) => if events.last() {
                rows_of(chunks, embedded)
            } else {
                stored_after(rows, s, events.drop_last(), embedded)
            },
            _ => stored_after(rows, s, events.drop_last(), embedded),
        }
    }
}

/// The chunks of the documents that were prepared.
pub open spec fn prepared(docs: Seq<Seq<ChunkView>>, events: Seq<bool>) -> Seq<ChunkView>
    decreases docs.len(),
{
    if docs.len() == 0 {
        Seq::empty()
    } else {
        let before = prepared(docs.drop_last(), events);
        if events[docs.len() - 1] {
            before + docs.last()
        } else {
            before
        }
    }
}

/// The sources of the documents that were prepared.
pub open spec fn fresh_of(docs: Seq<Seq<ChunkView>>, events: Seq<bool>) -> Seq<Seq<char>>
    decreases docs.len(),
{
    if docs.len() == 0 {
        Seq::empty()
    } else {
        let before = fresh_of(docs.drop_last(), events);
        if events[docs.len() - 1] {
            before.push(docs.last()[0].source)
        } else {
            before
        }
    }
}

proof fn lemma_same_events(docs: Seq<Seq<ChunkView>>, e: Seq<bool>, f: Seq<bool>)
    requires
        forall|i: int| 0 <= i < docs.len() ==> #[trigger] e[i] == f[i],
    ensures
        prepared(docs, e) == prepared(docs, f),
        fresh_of(docs, e) == fresh_of(docs, f),
    decreases docs.len(),
{
    if docs.len() > 0 {
        lemma_same_events(docs.drop_last(), e, f);
        assert(e[docs.len() - 1] == f[docs.len() - 1]);
    }
}

/// What holds of a rebuild after every event.
spec fn on_the_way(
    docs: Seq<Seq<ChunkView>>,
    snapshot: Seq<ChunkView>,
    events: Seq<bool>,
    t: RebuildView,
) -> bool {
    &&& t.docs == docs
    &&& t.snapshot == snapshot
    &&& match t.phase {
        Phase::Documents => {
            &&& t.next == events.len()
            &&& t.next < docs.len()
            &&& t.ready == prepared(docs.take(t.next), events)
            &&& t.fresh == fresh_of(docs.take(t.next), events)
        },
        Phase::Uploads => {
            &&& docs.len() == events.len()
            &&& t.ready == prepared(docs, events)
            &&& t.fresh == fresh_of(docs, events)
            &&& t.uploads == uploads_of(snapshot, t.fresh)
        },
        Phase::Writing | Phase::Done => {
            &&& docs.len() <= events.len()
            &&& t.fresh == fresh_of(docs, events)
            &&& t.ready == prepared(docs, events) + uploads_of(snapshot, t.fresh)
        },
        Phase::Failed => true,
    }
}

proof fn lemma_onward(
    docs: Seq<Seq<ChunkView>>,
    snapshot: Seq<ChunkView>,
    events: Seq<bool>,
    t: RebuildView,
)
    requires
        t.docs == docs,
        t.snapshot == snapshot,
        t.next == events.len(),
        t.next <= docs.len(),
        t.ready == prepared(docs.take(t.next), events),
        t.fresh == fresh_of(docs.take(t.next), events),
    ensures
        on_the_way(docs, snapshot, events, onward(t)),
{
    if t.next == docs.len() {
        assert(docs.take(t.next) =~= docs);
        let ups = uploads_of(snapshot, t.fresh);
        if ups.len() == 0 {
            assert(prepared(docs, events) + ups =~= prepared(docs, events));
        }
    }
}

proof fn lemma_on_the_way(docs: Seq<Seq<ChunkView>>, snapshot: Seq<ChunkView>, events: Seq<bool>)
    ensures
        on_the_way(docs, snapshot, events, run(started(docs, snapshot), events)),
    decreases events.len(),
{
    let s = started(docs, snapshot);
    if events.len() == 0 {
        assert(docs.take(0) =~= Seq::<Seq<ChunkView>>::empty());
        lemma_onward(
            docs,
            snapshot,
            events,
            RebuildView {
                docs: docs,
                next: 0,
                snapshot: snapshot,
                fresh: Seq::empty(),
                uploads: Seq::empty(),
                ready: Seq::empty(),
                phase: Phase::Documents,
            },
        );
    } else {
        let e = events.drop_last();
        let t = run(s, e);
        lemma_on_the_way(docs, snapshot, e);
        match t.phase {
            Phase::Documents => {
                let n = t.next;
                let part = docs.take(n + 1);
                assert(part.drop_last() =~= docs.take(n));
                assert(part.last() == docs[n]);
                lemma_same_events(docs.take(n), e, events);
                let ok = events.last();
                lemma_onward(
                    docs,
                    snapshot,
                    events,
                    RebuildView {
                        next: n + 1,
                        fresh: if ok {
                            t.fresh.push(docs[n][0].source)
                        } else {
                            t.fresh
                        },
                        ready: if ok {
                            t.ready + docs[n]
                        } else {
                            t.ready
                        },
                        ..t
                    },
                );
            },
            Phase::Failed => {},
            _ => {
                lemma_same_events(docs, e, events);
            },
        }
    }
}

// ── Laws ─────────────────────────────────────────────────────────────────────

/// A rebuild that is not done has changed nothing, whatever has failed and however
/// far it has come: every chunk that was stored is still stored.
pub proof fn a_failed_rebuild_changes_nothing(
    rows: Seq<Stored>,
    s: RebuildView,
    events: Seq<bool>,
    embedded: bool,
)
    requires
        run(s, events).phase != Phase::Done,
    ensures
        stored_after(rows, s, events, embedded) == rows,
    decreases events.len(),
{
    if events.len() > 0 {
        let e = events.drop_last();
        assert(run(s, e).phase != Phase::Done);
        a_failed_rebuild_changes_nothing(rows, s, e, embedded);
    }
}

proof fn lemma_stored_when_done(
    rows: Seq<Stored>,
    s: RebuildView,
    events: Seq<bool>,
    embedded: bool,
)
    requires
        s.phase != Phase::Done,
        run(s, events).phase == Phase::Done,
    ensures
        stored_after(rows, s, events, embedded) == rows_of(run(s, events).ready, embedded),
    decreases events.len(),
{
    let e = events.drop_last();
    let t = run(s, e);
    if t.phase == Phase::Done {
        lemma_stored_when_done(rows, s, e, embedded);
    }
}

proof fn lemma_fresh(docs: Seq<Seq<ChunkView>>, events: Seq<bool>, x: Seq<char>)
    ensures
        fresh_of(docs, events).contains(x) <==> exists|d: int|
            0 <= d < docs.len() && events[d] && (#[trigger] docs[d])[0].source == x,
    decreases docs.len(),
{
    let all = fresh_of(docs, events);
    if docs.len() > 0 {
        let p = docs.drop_last();
        let before = fresh_of(p, events);
        lemma_fresh(p, events, x);
        let n = docs.len() - 1;
        if before.contains(x) {
            let d = choose|d: int|
                0 <= d < p.len() && events[d] && (#[trigger] p[d])[0].source == x;
            assert(docs[d][0].source == x);
            let k = choose|k: int| 0 <= k < before.len() && before[k] == x;
            assert(all[k] == x);
        }
        if events[n] && docs[n][0].source == x {
            assert(all[before.len() as int] == x);
        }
        if all.contains(x) && !before.contains(x) {
            let k = choose|k: int| 0 <= k < all.len() && all[k] == x;
            if k < before.len() {
                assert(before[k] == x);
            }
            assert(docs[n][0].source == x);
        }
        if exists|d: int| 0 <= d < docs.len() && events[d] && (#[trigger] docs[d])[0].source == x {
            let d = choose|d: int|
                0 <= d < docs.len() && events[d] && (#[trigger] docs[d])[0].source == x;
            if d < n {
                assert(p[d][0].source == x);
            }
        }
    }
}

proof fn lemma_prepared(docs: Seq<Seq<ChunkView>>, events: Seq<bool>, d: int, k: int)
    requires
        0 <= d < docs.len(),
        events[d],
        0 <= k < docs[d].len(),
    ensures
        prepared(docs, events).contains(docs[d][k]),
    decreases docs.len(),
{
    let p = docs.drop_last();
    let before = prepared(p, events);
    let all = prepared(docs, events);
    if d < p.len() {
        lemma_prepared(p, events, d, k);
        assert(p[d] == docs[d]);
        let i = choose|i: int| 0 <= i < before.len() && before[i] == docs[d][k];
        assert(all[i] == docs[d][k]);
    } else {
        assert(all[before.len() + k] == docs[d][k]);
    }
}

/// A rebuild that is done has replaced the store by the chunks of the documents
/// that could be prepared and by every stored chunk of any other source, be it an
/// upload or a document that was passed over. It reports their number, and the
/// index that is made of them mirrors the store.
pub proof fn a_rebuild_loses_nothing(
    rows: Seq<Stored>,
    docs: Seq<Seq<ChunkView>>,
    snapshot: Seq<ChunkView>,
    events: Seq<bool>,
    embedded: bool,
)
    requires
        run(started(docs, snapshot), events).phase == Phase::Done,
    ensures
        ({
            let t = run(started(docs, snapshot), events);
            let stored = stored_after(rows, started(docs, snapshot), events, embedded);
            let fresh = fresh_of(docs, events);
            &&& docs.len() <= events.len()
            &&& t.ready == prepared(docs, events) + uploads_of(snapshot, fresh)
            &&& stored == rows_of(t.ready, embedded)
            &&& action_of(t) == RebuildActionView::Finish(stored.len() as int)
            &&& mirrors(stored, docs_of(t.ready))
            &&& forall|i: int|
                0 <= i < snapshot.len() && !fresh.contains((#[trigger] snapshot[i]).source)
                    ==> stored.contains(Stored { chunk: snapshot[i], embedded: embedded })
            &&& forall|d: int, k: int|
                0 <= d < docs.len() && events[d] && 0 <= k < docs[d].len() ==> stored.contains(
                    Stored { chunk: #[trigger] docs[d][k], embedded: embedded },
                )
            &&& forall|x: Seq<char>| #[trigger]
                fresh.contains(x) <==> exists|d: int|
                    0 <= d < docs.len() && events[d] && (#[trigger] docs[d])[0].source == x
        }),
{
    let s = started(docs, snapshot);
    let t = run(s, events);
    let fresh = fresh_of(docs, events);
    let ups = uploads_of(snapshot, fresh);
    let stored = stored_after(rows, s, events, embedded);
    lemma_on_the_way(docs, snapshot, events);
    lemma_stored_when_done(rows, s, events, embedded);
    uploads_are_the_rest(snapshot, fresh);
    assert(stored_docs(stored) =~= docs_of(t.ready));
    assert forall|i: int|
        0 <= i < snapshot.len() && !fresh.contains(
            (#[trigger] snapshot[i]).source,
        ) implies stored.contains(Stored { chunk: snapshot[i], embedded: embedded }) by {
        assert(ups.contains(snapshot[i]));
        let k = choose|k: int| 0 <= k < ups.len() && ups[k] == snapshot[i];
        let n = prepared(docs, events).len() + k;
        assert(t.ready[n] == snapshot[i]);
        assert(stored[n] == (Stored { chunk: snapshot[i], embedded: embedded }));
    }
    assert forall|d: int, k: int|
        0 <= d < docs.len() && events[d] && 0 <= k < docs[d].len() implies stored.contains(
        Stored { chunk: #[trigger] docs[d][k], embedded: embedded },
    ) by {
        lemma_prepared(docs, events, d, k);
        let p = prepared(docs, events);
        let i = choose|i: int| 0 <= i < p.len() && p[i] == docs[d][k];
        assert(t.ready[i] == docs[d][k]);
        assert(stored[i] == (Stored { chunk: docs[d][k], embedded: embedded }));
    }
    assert forall|x: Seq<char>| #[trigger]
        fresh.contains(x) <==> exists|d: int|
            0 <= d < docs.len() && events[d] && (#[trigger] docs[d])[0].source == x by {
        lemma_fresh(docs, events, x);
    }
}

/// Every file that holds text is one of the documents of a rebuild, chunked as it
/// now stands.
pub proof fn every_file_is_chunked(
    cfg: RagConfigView,
    files: Seq<DocumentView>,
    now: i64,
    i: int,
)
    requires
        0 <= i < files.len(),
        !all_white(files[i].content),
    ensures
        chunked(cfg, files, now).contains(
            document_chunks(cfg, files[i].source, files[i].content, now),
        ),
    decreases files.len(),
{
    let d = files.drop_last();
    let before = chunked(cfg, d, now);
    let all = chunked(cfg, files, now);
    let c = document_chunks(cfg, files[i].source, files[i].content, now);
    if i < d.len() {
        every_file_is_chunked(cfg, d, now, i);
        let k = choose|k: int| 0 <= k < before.len() && before[k] == c;
        assert(all[k] == c);
    } else {
        assert(all[before.len() as int] == c);
    }
}

/// A chunk but for the time at which it was indexed.
pub open spec fn timeless(c: ChunkView) -> ChunkView {
    ChunkView { created_at: 0, ..c }
}

/// Chunks but for the times at which they were indexed.
pub open spec fn all_timeless(chunks: Seq<ChunkView>) -> Seq<ChunkView> {
    chunks.map_values(|c: ChunkView| timeless(c))
}

proof fn lemma_chunked(cfg: RagConfigView, files: Seq<DocumentView>, t: i64, u: i64)
    requires
        cfg.chunk_chars > 0,
    ensures
        chunked(cfg, files, t).len() == chunked(cfg, files, u).len(),
        forall|d: int|
            0 <= d < chunked(cfg, files, t).len() ==> {
                let a = #[trigger] chunked(cfg, files, t)[d];
                let b = chunked(cfg, files, u)[d];
                &&& a.len() > 0
                &&& a.len() == b.len()
                &&& all_timeless(a) == all_timeless(b)
                &&& a[0].source == b[0].source
                &&& forall|k: int| 0 <= k < a.len() ==> (#[trigger] a[k]).source == a[0].source
            },
    decreases files.len(),
{
    if files.len() > 0 {
        lemma_chunked(cfg, files.drop_last(), t, u);
        let f = files.last();
        if !all_white(f.content) {
            chunks_fit(f.content, cfg.chunk_chars as int, cfg.overlap_chars as int);
            let texts = chunk_texts(f.content, cfg.chunk_chars as int, cfg.overlap_chars as int);
            let a = document_chunks(cfg, f.source, f.content, t);
            let b = document_chunks(cfg, f.source, f.content, u);
            assert(a.len() == texts.len() && b.len() == texts.len());
            assert forall|k: int| 0 <= k < a.len() implies (#[trigger] a[k]).source == a[0].source
                && timeless(a[k]) == timeless(b[k]) by {
                assert(a[k] == chunk_view(f.source, k, texts[k], t));
                assert(b[k] == chunk_view(f.source, k, texts[k], u));
                assert(a[0] == chunk_view(f.source, 0, texts[0], t));
            }
            assert(b[0] == chunk_view(f.source, 0, texts[0], u));
            assert(all_timeless(a) =~= all_timeless(b));
        }
        let p = chunked(cfg, files.drop_last(), t);
        let q = chunked(cfg, files.drop_last(), u);
        let all = chunked(cfg, files, t);
        let other = chunked(cfg, files, u);
        assert forall|d: int| 0 <= d < all.len() implies {
            let a = #[trigger] all[d];
            let b = other[d];
            &&& a.len() > 0
            &&& a.len() == b.len()
            &&& all_timeless(a) == all_timeless(b)
            &&& a[0].source == b[0].source
            &&& forall|k: int| 0 <= k < a.len() ==> (#[trigger] a[k]).source == a[0].source
        } by {
            if d < p.len() {
                assert(all[d] == p[d]);
                assert(other[d] == q[d]);
            }
        }
    }
}

proof fn lemma_same_documents(a: Seq<Seq<ChunkView>>, b: Seq<Seq<ChunkView>>, events: Seq<bool>)
    requires
        a.len() == b.len(),
        forall|d: int|
            0 <= d < a.len() ==> all_timeless(#[trigger] a[d]) == all_timeless(b[d])
                && a[d][0].source == b[d][0].source,
    ensures
        all_timeless(prepared(a, events)) == all_timeless(prepared(b, events)),
        fresh_of(a, events) == fresh_of(b, events),
    decreases a.len(),
{
    if a.len() > 0 {
        let p = a.drop_last();
        let q = b.drop_last();
        assert forall|d: int| 0 <= d < p.len() implies all_timeless(#[trigger] p[d])
            == all_timeless(q[d]) && p[d][0].source == q[d][0].source by {
            assert(p[d] == a[d]);
        }
        lemma_same_documents(p, q, events);
        let n = a.len() - 1;
        assert(all_timeless(a[n]) == all_timeless(b[n]));
        assert(all_timeless(prepared(p, events) + a[n]) =~= all_timeless(prepared(p, events))
            + all_timeless(a[n]));
        assert(all_timeless(prepared(q, events) + b[n]) =~= all_timeless(prepared(q, events))
            + all_timeless(b[n]));
    }
}

proof fn lemma_prepared_sources(docs: Seq<Seq<ChunkView>>, events: Seq<bool>)
    requires
        forall|d: int|
            0 <= d < docs.len() ==> {
                let a = #[trigger] docs[d];
                forall|k: int| 0 <= k < a.len() ==> (#[trigger] a[k]).source == a[0].source
            },
    ensures
        forall|i: int|
            0 <= i < prepared(docs, events).len() ==> fresh_of(docs, events).contains(
                (#[trigger] prepared(docs, events)[i]).source,
            ),
    decreases docs.len(),
{
    if docs.len() > 0 {
        let p = docs.drop_last();
        let n = docs.len() - 1;
        assert forall|d: int| 0 <= d < p.len() implies {
            let a = #[trigger] p[d];
            forall|k: int| 0 <= k < a.len() ==> (#[trigger] a[k]).source == a[0].source
        } by {
            assert(p[d] == docs[d]);
        }
        lemma_prepared_sources(p, events);
        let before = prepared(p, events);
        let all = prepared(docs, events);
        let fresh = fresh_of(docs, events);
        let old = fresh_of(p, events);
        assert forall|i: int| 0 <= i < all.len() implies fresh.contains(
            (#[trigger] all[i]).source,
        ) by {
            if i < before.len() {
                assert(all[i] == before[i]);
                let k = choose|k: int| 0 <= k < old.len() && old[k] == before[i].source;
                assert(fresh[k] == all[i].source);
            } else {
                let a = docs[n];
                assert(all[i] == a[i - before.len()]);
                assert(fresh[old.len() as int] == all[i].source);
            }
        }
    }
}

proof fn lemma_filter_tail<A>(a: Seq<A>, b: Seq<A>, p: spec_fn(A) -> bool)
    requires
        forall|i: int| 0 <= i < a.len() ==> !p(#[trigger] a[i]),
        forall|i: int| 0 <= i < b.len() ==> p(#[trigger] b[i]),
    ensures
        (a + b).filter(p) == b,
{
    Seq::filter_distributes_over_add(a, b, p);
    lemma_filter_none(a, p);
    lemma_filter_all(b, p);
    assert(a.filter(p) + b =~= b);
}

proof fn lemma_uploads_again(
    p: Seq<ChunkView>,
    snapshot: Seq<ChunkView>,
    again: Seq<ChunkView>,
    fresh: Seq<Seq<char>>,
)
    requires
        forall|i: int| 0 <= i < p.len() ==> fresh.contains((#[trigger] p[i]).source),
        again.to_multiset() == (p + uploads_of(snapshot, fresh)).to_multiset(),
    ensures
        uploads_of(again, fresh).to_multiset() == uploads_of(snapshot, fresh).to_multiset(),
{
    let up = uploads_of(snapshot, fresh);
    let keep = |c: ChunkView| !fresh.contains(c.source);
    uploads_are_the_rest(snapshot, fresh);
    uploads_are_the_rest(again, fresh);
    assert forall|i: int| 0 <= i < up.len() implies keep(#[trigger] up[i]) by {
        broadcast use vstd::seq_lib::group_to_multiset_ensures;

        assert(up.contains(up[i]));
        assert(up.to_multiset().count(up[i]) > 0);
        assert(snapshot.to_multiset().filter(keep).count(up[i]) > 0);
    }
    assert forall|i: int| 0 <= i < p.len() implies !keep(#[trigger] p[i]) by {}
    lemma_filter_tail(p, up, keep);
    lemma_filter_multiset(p + up, keep);
}

/// A second rebuild of the same files, in which the same documents can be prepared
/// as in the first, stores the same chunks again but for the times at which they
/// were indexed.
pub proof fn a_second_rebuild_changes_nothing(
    cfg: RagConfigView,
    files: Seq<DocumentView>,
    t: i64,
    u: i64,
    snapshot: Seq<ChunkView>,
    again: Seq<ChunkView>,
    events: Seq<bool>,
    later: Seq<bool>,
)
    requires
        cfg.chunk_chars > 0,
        run(started(chunked(cfg, files, t), snapshot), events).phase == Phase::Done,
        run(started(chunked(cfg, files, u), again), later).phase == Phase::Done,
        forall|d: int| 0 <= d < chunked(cfg, files, t).len() ==> #[trigger] events[d] == later[d],
        again.to_multiset() == run(
            started(chunked(cfg, files, t), snapshot),
            events,
        ).ready.to_multiset(),
    ensures
        all_timeless(
            run(started(chunked(cfg, files, u), again), later).ready,
        ).to_multiset() == all_timeless(
            run(started(chunked(cfg, files, t), snapshot), events).ready,
        ).to_multiset(),
{
    let a = chunked(cfg, files, t);
    let b = chunked(cfg, files, u);
    lemma_chunked(cfg, files, t, u);
    lemma_on_the_way(a, snapshot, events);
    lemma_on_the_way(b, again, later);
    lemma_same_events(b, events, later);
    lemma_same_documents(a, b, events);
    lemma_prepared_sources(a, events);
    let fresh = fresh_of(a, events);
    let p = prepared(a, events);
    let q = prepared(b, events);
    let up = uploads_of(snapshot, fresh);
    let up2 = uploads_of(again, fresh);
    lemma_uploads_again(p, snapshot, again, fresh);
    let f = |c: ChunkView| timeless(c);
    lemma_map_multiset(up2, up, f);
    assert(all_timeless(p + up) =~= all_timeless(p) + all_timeless(up));
    assert(all_timeless(q + up2) =~= all_timeless(q) + all_timeless(up2));
    vstd::seq_lib::lemma_multiset_commutative(all_timeless(p), all_timeless(up));
    vstd::seq_lib::lemma_multiset_commutative(all_timeless(q), all_timeless(up2));
}

// ── The course of a rebuild ──────────────────────────────────────────────────

/// The files that hold text are chunked, all of them and no others, in order.
pub proof fn files_with_text_are_chunked_in_order(
    cfg: RagConfigView,
    files: Seq<DocumentView>,
    now: i64,
)
    ensures
        chunked(cfg, files, now) == files.filter(
            |f: DocumentView| !all_white(f.content),
        ).map_values(|f: DocumentView| document_chunks(cfg, f.source, f.content, now)),
    decreases files.len(),
{
    reveal(Seq::filter);
    let p = |f: DocumentView| !all_white(f.content);
    let g = |f: DocumentView| document_chunks(cfg, f.source, f.content, now);
    if files.len() == 0 {
        assert(chunked(cfg, files, now) =~= files.filter(p).map_values(g));
    } else {
        let d = files.drop_last();
        files_with_text_are_chunked_in_order(cfg, d, now);
        if p(files.last()) {
            assert(d.filter(p).push(files.last()).map_values(g) =~= d.filter(p).map_values(g).push(
                g(files.last()),
            ));
        }
    }
}

/// The events of a rebuild with `n` documents: how many there are before the store
/// is written, if there are uploads to prepare or not.
pub open spec fn before_writing(n: nat, uploads: nat) -> int {
    if uploads > 0 {
        n as int + 1
    } else {
        n as int
    }
}

/// A rebuild asks for one document after the other, whatever became of those
/// before; then for the uploads, if there are any; and then for the write of all
/// that was prepared. It gives up if the uploads or the write fail, and only then;
/// and it is done when the write has succeeded.
pub proof fn a_rebuild_takes_its_course(
    docs: Seq<Seq<ChunkView>>,
    snapshot: Seq<ChunkView>,
    events: Seq<bool>,
)
    ensures
        ({
            let n = docs.len() as int;
            let t = run(started(docs, snapshot), events);
            let ups = uploads_of(snapshot, fresh_of(docs, events));
            let w = before_writing(docs.len(), ups.len());
            &&& events.len() < n ==> action_of(t) == RebuildActionView::Prepare(
                docs[events.len() as int],
            )
            &&& events.len() == n && ups.len() > 0 ==> action_of(t)
                == RebuildActionView::Prepare(ups)
            &&& events.len() > n && ups.len() > 0 && !events[n] ==> action_of(t)
                == RebuildActionView::GiveUp
            &&& events.len() == w && (ups.len() > 0 ==> events[n]) ==> action_of(t)
                == RebuildActionView::Replace(prepared(docs, events) + ups)
            &&& events.len() > w && (ups.len() > 0 ==> events[n]) && events[w] ==> action_of(t)
                == RebuildActionView::Finish((prepared(docs, events) + ups).len() as int)
            &&& events.len() > w && (ups.len() > 0 ==> events[n]) && !events[w] ==> action_of(t)
                == RebuildActionView::GiveUp
        }),
    decreases events.len(),
{
    let n = docs.len() as int;
    let s = started(docs, snapshot);
    let t = run(s, events);
    let fresh = fresh_of(docs, events);
    let ups = uploads_of(snapshot, fresh);
    lemma_on_the_way(docs, snapshot, events);
    if events.len() == 0 {
        assert(t == s);
        if n == 0 {
            assert(prepared(docs, events) + ups =~= ups);
            if ups.len() == 0 {
                assert(t.ready =~= prepared(docs, events) + ups);
            }
        }
    } else {
        let e = events.drop_last();
        a_rebuild_takes_its_course(docs, snapshot, e);
        lemma_on_the_way(docs, snapshot, e);
        if events.len() > n {
            lemma_same_events(docs, events, e);
        }
        if events.len() == n && ups.len() == 0 {
            assert(prepared(docs, events) + ups =~= prepared(docs, events));
        }
    }
}

} // verus!
