//! What holds after any history of a library: documents ingested and removed, the
//! system closed and opened again, the index rebuilt, whatever fails on the way.
use vstd::prelude::*;

use crate::rag::bm25::{found, without_source, DocView};
use crate::rag::chunk::{chunk_texts, chunk_view, document_chunks};
use crate::rag::hybrid::groups;
use crate::rag::laws::{
    drawn_from, id_is_free, ingesting_keeps_the_mirror, mirrors, opening_mirrors_the_store,
    removing_keeps_the_mirror, reopening_keeps_what_is_found, same_chunks_found, same_sources,
    stored_docs, uploads_are_the_rest, well_filed,
};
use crate::rag::rebuild::{chunked, started, Phase};
use crate::rag::rebuild_laws::{
    a_failed_rebuild_changes_nothing, a_rebuild_loses_nothing, fresh_of, prepared, run,
    stored_after,
};
use crate::rag::score::Score;
use crate::rag::store::{has_document, replaced, rows_of, rows_without, Stored};
use crate::rag::system::{
    docs_of, effective_mode, is_confident, result_hits, uploads_of, DocumentView, RagView,
};
use crate::rag::types::{id_of, ChunkView, HitView, RagConfigView, RetrievalMode};
use crate::text::all_white;

verus! {

// ── Changes ──────────────────────────────────────────────────────────────────

/// Something that happens to a library.
pub enum Change {
    /// A document is ingested, with embeddings or without.
    Ingest { source: Seq<char>, content: Seq<char>, now: i64, embedded: bool },
    /// The document of a source is removed.
    Remove { source: Seq<char> },
    /// The system is opened anew on the chunks that are stored.
    Reopen { chunks: Seq<ChunkView> },
    /// The index is rebuilt from the files that were read and from the chunks that
    /// are stored; `events` tells what succeeded and what failed.
    Rebuild {
        files: Seq<DocumentView>,
        now: i64,
        snapshot: Seq<ChunkView>,
        events: Seq<bool>,
        embedded: bool,
    },
}

/// What is stored, and the keyword index.
pub struct Library {
    pub rows: Seq<Stored>,
    pub docs: Seq<DocView>,
}

/// These are the chunks that are stored, each as often, in some order.
pub open spec fn lists(rows: Seq<Stored>, chunks: Seq<ChunkView>) -> bool {
    chunks.to_multiset() == rows.map_values(|r: Stored| r.chunk).to_multiset()
}

/// A change makes one library into another. A document without text is refused and
/// changes nothing; the index follows a rebuild only when it is done.
pub open spec fn leads(cfg: RagConfigView, l: Library, c: Change, m: Library) -> bool {
    match c {
        Change::Ingest { source, content, now, embedded } => if all_white(content) {
            m == l
        } else {
            let chunks = document_chunks(cfg, source, content, now);
            &&& m.rows == replaced(l.rows, chunks, embedded)
            &&& m.docs == without_source(l.docs, source) + docs_of(chunks)
        },
        Change::Remove { source } => {
            &&& m.rows == rows_without(l.rows, source)
            &&& m.docs == without_source(l.docs, source)
        },
        Change::Reopen { chunks } => {
            &&& lists(l.rows, chunks)
            &&& m.rows == l.rows
            &&& m.docs == docs_of(chunks)
        },
        Change::Rebuild { files, now, snapshot, events, embedded } => {
            let s = started(chunked(cfg, files, now), snapshot);
            let t = run(s, events);
            &&& lists(l.rows, snapshot)
            &&& m.rows == stored_after(l.rows, s, events, embedded)
            &&& m.docs == if t.phase == Phase::Done {
                docs_of(t.ready)
            } else {
                l.docs
            }
        },
    }
}

/// Changes that make a library out of an empty one.
pub open spec fn reaches(cfg: RagConfigView, changes: Seq<Change>, l: Library) -> bool
    decreases changes.len(),
{
    if changes.len() == 0 {
        l.rows.len() == 0 && l.docs.len() == 0
    } else {
        exists|k: Library|
            reaches(cfg, changes.drop_last(), k) && #[trigger] leads(cfg, k, changes.last(), l)
    }
}

/// A file was read from a source.
pub open spec fn read_from(files: Seq<DocumentView>, source: Seq<char>) -> bool {
    exists|j: int| 0 <= j < files.len() && (#[trigger] files[j]).source == source
}

/// A change brings in a document from a source.
pub open spec fn brings(c: Change, source: Seq<char>) -> bool {
    match c {
        Change::Ingest { source: x, .. } => x == source,
        Change::Rebuild { files, .. } => read_from(files, source),
        _ => false,
    }
}

/// One of the changes brings in a document from a source.
pub open spec fn brought(changes: Seq<Change>, source: Seq<char>) -> bool {
    exists|i: int| 0 <= i < changes.len() && brings(#[trigger] changes[i], source)
}

/// No two sources that are brought in have the same id.
pub open spec fn ids_differ(changes: Seq<Change>) -> bool {
    forall|a: Seq<char>, b: Seq<char>| #[trigger]
        brought(changes, a) && #[trigger] brought(changes, b) && id_of(a) == id_of(b) ==> a == b
}

/// A chunk stands under the id of its source, which was brought in.
pub open spec fn filed(changes: Seq<Change>, c: ChunkView) -> bool {
    c.document_id == id_of(c.source) && brought(changes, c.source)
}

/// All chunks do.
pub open spec fn all_filed(changes: Seq<Change>, rows: Seq<Stored>) -> bool {
    forall|i: int| 0 <= i < rows.len() ==> filed(changes, (#[trigger] rows[i]).chunk)
}

// ── Proofs ───────────────────────────────────────────────────────────────────

proof fn lemma_brought(changes: Seq<Change>, source: Seq<char>)
    requires
        changes.len() > 0,
        brought(changes.drop_last(), source),
    ensures
        brought(changes, source),
{
    let before = changes.drop_last();
    let i = choose|i: int| 0 <= i < before.len() && brings(#[trigger] before[i], source);
    assert(changes[i] == before[i]);
}

proof fn lemma_last_brings(changes: Seq<Change>, source: Seq<char>)
    requires
        changes.len() > 0,
        brings(changes.last(), source),
    ensures
        brought(changes, source),
{
    assert(brings(changes[changes.len() - 1], source));
}

proof fn lemma_still_filed(changes: Seq<Change>, rows: Seq<Stored>)
    requires
        changes.len() > 0,
        all_filed(changes.drop_last(), rows),
    ensures
        all_filed(changes, rows),
{
    assert forall|i: int| 0 <= i < rows.len() implies filed(changes, (#[trigger] rows[i]).chunk) by {
        lemma_brought(changes, rows[i].chunk.source);
    }
}

proof fn lemma_filter_filed(changes: Seq<Change>, rows: Seq<Stored>, p: spec_fn(Stored) -> bool)
    requires
        all_filed(changes, rows),
    ensures
        all_filed(changes, rows.filter(p)),
{
    let kept = rows.filter(p);
    assert forall|i: int| 0 <= i < kept.len() implies filed(changes, (#[trigger] kept[i]).chunk) by {
        assert(kept.contains(kept[i]));
        rows.lemma_filter_contains_rev(p, kept[i]);
        let k = choose|k: int| 0 <= k < rows.len() && rows[k] == kept[i];
        assert(filed(changes, rows[k].chunk));
    }
}

proof fn lemma_document_filed(
    cfg: RagConfigView,
    source: Seq<char>,
    content: Seq<char>,
    now: i64,
    k: int,
)
    requires
        0 <= k < document_chunks(cfg, source, content, now).len(),
    ensures
        document_chunks(cfg, source, content, now)[k].source == source,
        document_chunks(cfg, source, content, now)[k].document_id == id_of(source),
{
    let texts = chunk_texts(content, cfg.chunk_chars as int, cfg.overlap_chars as int);
    assert(document_chunks(cfg, source, content, now)[k] == chunk_view(source, k, texts[k], now));
}

proof fn lemma_ingest_filed(
    cfg: RagConfigView,
    changes: Seq<Change>,
    rows: Seq<Stored>,
    source: Seq<char>,
    content: Seq<char>,
    now: i64,
    embedded: bool,
)
    requires
        all_filed(changes, rows),
        brought(changes, source),
    ensures
        all_filed(
            changes,
            replaced(rows, document_chunks(cfg, source, content, now), embedded),
        ),
{
    let chunks = document_chunks(cfg, source, content, now);
    let p = |r: Stored| !has_document(chunks, r.chunk.document_id);
    let kept = rows.filter(p);
    let all = replaced(rows, chunks, embedded);
    lemma_filter_filed(changes, rows, p);
    assert(all == kept + rows_of(chunks, embedded));
    assert forall|i: int| 0 <= i < all.len() implies filed(changes, (#[trigger] all[i]).chunk) by {
        if i < kept.len() {
            assert(all[i] == kept[i]);
        } else {
            lemma_document_filed(cfg, source, content, now, i - kept.len());
        }
    }
}

proof fn lemma_chunked_filed(
    cfg: RagConfigView,
    files: Seq<DocumentView>,
    now: i64,
    d: int,
    k: int,
)
    requires
        0 <= d < chunked(cfg, files, now).len(),
        0 <= k < chunked(cfg, files, now)[d].len(),
    ensures
        ({
            let c = chunked(cfg, files, now)[d][k];
            c.document_id == id_of(c.source) && read_from(files, c.source)
        }),
    decreases files.len(),
{
    if files.len() > 0 {
        let f = files.last();
        let rest = files.drop_last();
        let before = chunked(cfg, rest, now);
        let c = chunked(cfg, files, now)[d][k];
        if d < before.len() {
            assert(chunked(cfg, files, now)[d] == before[d]);
            lemma_chunked_filed(cfg, rest, now, d, k);
            let j = choose|j: int| 0 <= j < rest.len() && (#[trigger] rest[j]).source == c.source;
            assert(files[j] == rest[j]);
        } else {
            lemma_document_filed(cfg, f.source, f.content, now, k);
            assert(files[files.len() - 1].source == c.source);
        }
    }
}

proof fn lemma_prepared_from(docs: Seq<Seq<ChunkView>>, events: Seq<bool>, i: int) -> (r: (
    int,
    int,
))
    requires
        0 <= i < prepared(docs, events).len(),
    ensures
        0 <= r.0 < docs.len(),
        0 <= r.1 < docs[r.0].len(),
        prepared(docs, events)[i] == docs[r.0][r.1],
    decreases docs.len(),
{
    if docs.len() == 0 {
        (0, 0)
    } else {
        let rest = docs.drop_last();
        let before = prepared(rest, events);
        if i < before.len() {
            let r = lemma_prepared_from(rest, events, i);
            assert(docs[r.0] == rest[r.0]);
            r
        } else {
            (docs.len() - 1, i - before.len())
        }
    }
}

proof fn lemma_listed_filed(
    changes: Seq<Change>,
    rows: Seq<Stored>,
    chunks: Seq<ChunkView>,
    c: ChunkView,
)
    requires
        all_filed(changes, rows),
        lists(rows, chunks),
        chunks.contains(c),
    ensures
        filed(changes, c),
{
    broadcast use vstd::seq_lib::group_to_multiset_ensures;

    let held = rows.map_values(|r: Stored| r.chunk);
    assert(chunks.to_multiset().count(c) > 0);
    assert(held.to_multiset().count(c) > 0);
    assert(held.contains(c));
    let k = choose|k: int| 0 <= k < held.len() && held[k] == c;
    assert(filed(changes, rows[k].chunk));
}

proof fn lemma_upload_is_listed(snapshot: Seq<ChunkView>, fresh: Seq<Seq<char>>, c: ChunkView)
    requires
        uploads_of(snapshot, fresh).contains(c),
    ensures
        snapshot.contains(c),
{
    broadcast use vstd::seq_lib::group_to_multiset_ensures;
    broadcast use vstd::multiset::group_multiset_axioms;

    uploads_are_the_rest(snapshot, fresh);
    assert(uploads_of(snapshot, fresh).to_multiset().count(c) > 0);
    assert(snapshot.to_multiset().count(c) > 0);
}

proof fn lemma_rebuild_filed(
    cfg: RagConfigView,
    changes: Seq<Change>,
    rows: Seq<Stored>,
    files: Seq<DocumentView>,
    now: i64,
    snapshot: Seq<ChunkView>,
    events: Seq<bool>,
    embedded: bool,
)
    requires
        all_filed(changes, rows),
        lists(rows, snapshot),
        forall|x: Seq<char>| #[trigger] read_from(files, x) ==> brought(changes, x),
        run(started(chunked(cfg, files, now), snapshot), events).phase == Phase::Done,
    ensures
        all_filed(
            changes,
            stored_after(rows, started(chunked(cfg, files, now), snapshot), events, embedded),
        ),
{
    let docs = chunked(cfg, files, now);
    let s = started(docs, snapshot);
    let stored = stored_after(rows, s, events, embedded);
    let p = prepared(docs, events);
    let ups = uploads_of(snapshot, fresh_of(docs, events));
    a_rebuild_loses_nothing(rows, docs, snapshot, events, embedded);
    assert(stored == rows_of(p + ups, embedded));
    assert forall|i: int| 0 <= i < stored.len() implies filed(
        changes,
        (#[trigger] stored[i]).chunk,
    ) by {
        let c = stored[i].chunk;
        if i < p.len() {
            let (d, k) = lemma_prepared_from(docs, events, i);
            assert(c == docs[d][k]);
            lemma_chunked_filed(cfg, files, now, d, k);
            assert(read_from(files, c.source));
        } else {
            assert(c == ups[i - p.len()]);
            lemma_upload_is_listed(snapshot, fresh_of(docs, events), c);
            lemma_listed_filed(changes, rows, snapshot, c);
        }
    }
}

proof fn lemma_leads(cfg: RagConfigView, changes: Seq<Change>, l: Library, m: Library)
    requires
        cfg.chunk_chars > 0,
        changes.len() > 0,
        ids_differ(changes),
        leads(cfg, l, changes.last(), m),
        mirrors(l.rows, l.docs),
        all_filed(changes.drop_last(), l.rows),
    ensures
        mirrors(m.rows, m.docs),
        all_filed(changes, m.rows),
{
    lemma_still_filed(changes, l.rows);
    match changes.last() {
        Change::Ingest { source, content, now, embedded } => {
            if !all_white(content) {
                lemma_last_brings(changes, source);
                assert(well_filed(l.rows)) by {
                    assert forall|i: int| 0 <= i < l.rows.len() implies (
                    #[trigger] l.rows[i]).chunk.document_id == id_of(l.rows[i].chunk.source) by {
                        assert(filed(changes, l.rows[i].chunk));
                    }
                }
                assert(id_is_free(l.rows, source)) by {
                    assert forall|i: int|
                        0 <= i < l.rows.len() && (#[trigger] l.rows[i]).chunk.document_id == id_of(
                            source,
                        ) implies l.rows[i].chunk.source == source by {
                        assert(filed(changes, l.rows[i].chunk));
                        assert(brought(changes, source));
                    }
                }
                let s = RagView { cfg: cfg, dim: 0, docs: l.docs, embedder: embedded };
                ingesting_keeps_the_mirror(l.rows, s, source, content, now, embedded);
                lemma_ingest_filed(cfg, changes, l.rows, source, content, now, embedded);
            }
        },
        Change::Remove { source } => {
            removing_keeps_the_mirror(l.rows, l.docs, source);
            lemma_filter_filed(changes, l.rows, |r: Stored| r.chunk.source != source);
        },
        Change::Reopen { chunks } => {
            opening_mirrors_the_store(l.rows, chunks);
        },
        Change::Rebuild { files, now, snapshot, events, embedded } => {
            let docs = chunked(cfg, files, now);
            let s = started(docs, snapshot);
            if run(s, events).phase == Phase::Done {
                assert forall|x: Seq<char>| #[trigger] read_from(files, x) implies brought(
                    changes,
                    x,
                ) by {
                    lemma_last_brings(changes, x);
                }
                a_rebuild_loses_nothing(l.rows, docs, snapshot, events, embedded);
                lemma_rebuild_filed(
                    cfg,
                    changes,
                    l.rows,
                    files,
                    now,
                    snapshot,
                    events,
                    embedded,
                );
            } else {
                a_failed_rebuild_changes_nothing(l.rows, s, events, embedded);
            }
        },
    }
}

// ── Laws ─────────────────────────────────────────────────────────────────────

/// After any history the index is a mirror of the store, and every stored chunk
/// stands under the id of its source, which was brought in.
pub proof fn every_history_keeps_the_mirror(cfg: RagConfigView, changes: Seq<Change>, l: Library)
    requires
        cfg.chunk_chars > 0,
        ids_differ(changes),
        reaches(cfg, changes, l),
    ensures
        mirrors(l.rows, l.docs),
        all_filed(changes, l.rows),
    decreases changes.len(),
{
    if changes.len() == 0 {
        assert(stored_docs(l.rows) =~= l.docs);
    } else {
        let before = changes.drop_last();
        let k = choose|k: Library|
            reaches(cfg, before, k) && #[trigger] leads(cfg, k, changes.last(), l);
        assert(ids_differ(before)) by {
            assert forall|a: Seq<char>, b: Seq<char>| #[trigger]
                brought(before, a) && #[trigger] brought(before, b) && id_of(a) == id_of(
                    b,
                ) implies a == b by {
                lemma_brought(changes, a);
                lemma_brought(changes, b);
            }
        }
        every_history_keeps_the_mirror(cfg, before, k);
        lemma_leads(cfg, changes, k, l);
    }
}

/// Documents persist: after any history, a system that is opened anew on what is
/// stored knows the same sources, each with as many
/// chunks, and answers every query as before, where no fewer hits are asked for
/// than chunks are stored.
pub proof fn documents_persist(
    changes: Seq<Change>,
    l: Library,
    s: RagView,
    chunks: Seq<ChunkView>,
    requested: RetrievalMode,
    stored: usize,
    query: Seq<char>,
    top_k: int,
    min_similarity: Score,
    vector: Seq<HitView>,
    f: spec_fn(DocView) -> Score,
    fused: Seq<Score>,
    fused_anew: Seq<Score>,
)
    requires
        s.cfg.chunk_chars > 0,
        ids_differ(changes),
        reaches(s.cfg, changes, l),
        s.docs == l.docs,
        lists(l.rows, chunks),
        top_k >= l.rows.len(),
        drawn_from(l.rows, vector),
        fused.len() == groups(
            seq![found(s.docs, query, top_k, s.docs.map_values(f)), vector],
        ).len(),
        fused_anew.len() == groups(
            seq![found(docs_of(chunks), query, top_k, docs_of(chunks).map_values(f)), vector],
        ).len(),
    ensures
        ({
            let anew = RagView { docs: docs_of(chunks), ..s };
            let mode = effective_mode(s, requested, stored);
            let a = found(s.docs, query, top_k, s.docs.map_values(f));
            let b = found(anew.docs, query, top_k, anew.docs.map_values(f));
            let x = result_hits(mode, a, vector, fused, top_k);
            let y = result_hits(mode, b, vector, fused_anew, top_k);
            &&& effective_mode(anew, requested, stored) == mode
            &&& is_confident(mode, x, a, vector, min_similarity) == is_confident(
                mode,
                y,
                b,
                vector,
                min_similarity,
            )
            &&& same_chunks_found(x, y)
            &&& same_sources(l.rows, s.docs)
            &&& same_sources(l.rows, anew.docs)
        }),
{
    every_history_keeps_the_mirror(s.cfg, changes, l);
    reopening_keeps_what_is_found(
        l.rows,
        s,
        chunks,
        requested,
        stored,
        query,
        top_k,
        min_similarity,
        vector,
        f,
        fused,
        fused_anew,
    );
}

} // verus!
