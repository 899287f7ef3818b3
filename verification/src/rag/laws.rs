//! What holds of the store and the keyword index together.
//!
//! The store is the source of truth. Every operation keeps the keyword index a
//! mirror of it, so what is stored is found, and what is not stored is not.
use vstd::prelude::*;

use crate::order::sorting_orders_and_keeps;
use crate::rag::bm25::{
    doc_of, found, hit_of, keyword_hits_are_ranked, query_terms, shares, without_source, DocView,
};
use crate::rag::bm25_laws::searches_do_not_depend_on_the_order;
use crate::rag::chunk::{chunk_texts, chunk_view, document_chunks};
use crate::rag::chunk_laws::chunks_fit;
use crate::rag::context::{hits_context, ContextView, NO_EVIDENCE};
use crate::rag::hybrid::{
    fused_from, fused_hit, fusion, fusion_loses_no_chunk, fusion_ranks_without_duplicates,
    gathering_merges_duplicates, groups, holds, listed, same_chunk, GroupView,
};
use crate::rag::score::Score;
use crate::rag::store::{has_document, replaced, rows_without, Stored};
use crate::rag::system::{
    chunk_order, docs_of, effective_mode, is_confident, lemma_chunk_order, result_hits, uploads_of,
    RagView,
};
use crate::rag::types::{id_of, ChunkView, HitView, RetrievalMode};
use crate::text::all_white;

verus! {

/// What the keyword index has to know of the stored chunks.
pub open spec fn stored_docs(rows: Seq<Stored>) -> Seq<DocView> {
    rows.map_values(|r: Stored| doc_of(r.chunk))
}

/// The keyword index holds exactly the stored chunks, each as often.
pub open spec fn mirrors(rows: Seq<Stored>, docs: Seq<DocView>) -> bool {
    stored_docs(rows).to_multiset() == docs.to_multiset()
}

/// Every stored chunk stands under the id of its source.
pub open spec fn well_filed(rows: Seq<Stored>) -> bool {
    forall|i: int|
        0 <= i < rows.len() ==> (#[trigger] rows[i]).chunk.document_id == id_of(
            rows[i].chunk.source,
        )
}

/// No stored chunk of another source stands under the id of `source`.
pub open spec fn id_is_free(rows: Seq<Stored>, source: Seq<char>) -> bool {
    forall|i: int|
        0 <= i < rows.len() && (#[trigger] rows[i]).chunk.document_id == id_of(source)
            ==> rows[i].chunk.source == source
}

/// A filtered sequence has the elements that the filter keeps, each as often.
pub proof fn lemma_filter_multiset<A>(s: Seq<A>, p: spec_fn(A) -> bool)
    ensures
        s.filter(p).to_multiset() == s.to_multiset().filter(p),
    decreases s.len(),
{
    broadcast use vstd::seq_lib::group_to_multiset_ensures;
    broadcast use vstd::multiset::group_multiset_axioms;

    reveal(Seq::filter);
    if s.len() > 0 {
        let d = s.drop_last();
        lemma_filter_multiset(d, p);
        assert(s =~= d.push(s.last()));
        assert(s.to_multiset() =~= d.to_multiset().insert(s.last()));
        assert(s.filter(p).to_multiset() =~= s.to_multiset().filter(p));
    } else {
        assert(s.filter(p) =~= Seq::<A>::empty());
        assert(s =~= Seq::<A>::empty());
        assert(s.filter(p).to_multiset() =~= s.to_multiset().filter(p));
    }
}

proof fn lemma_filter_map<A, B>(
    s: Seq<A>,
    f: spec_fn(A) -> B,
    p: spec_fn(A) -> bool,
    q: spec_fn(B) -> bool,
)
    requires
        forall|i: int| 0 <= i < s.len() ==> p(#[trigger] s[i]) == q(f(s[i])),
    ensures
        s.filter(p).map_values(f) == s.map_values(f).filter(q),
    decreases s.len(),
{
    reveal(Seq::filter);
    if s.len() > 0 {
        let d = s.drop_last();
        assert forall|i: int| 0 <= i < d.len() implies p(#[trigger] d[i]) == q(f(d[i])) by {
            assert(d[i] == s[i]);
        }
        lemma_filter_map(d, f, p, q);
        let m = s.map_values(f);
        assert(m.drop_last() =~= d.map_values(f));
        assert(m.last() == f(s.last()));
        assert(p(s[s.len() - 1]) == q(f(s[s.len() - 1])));
        if p(s.last()) {
            assert(d.filter(p).push(s.last()).map_values(f) =~= d.filter(p).map_values(f).push(
                f(s.last()),
            ));
        }
    } else {
        assert(s.filter(p).map_values(f) =~= s.map_values(f).filter(q));
    }
}

/// Opening the system on what is stored makes the index a mirror.
pub proof fn opening_mirrors_the_store(rows: Seq<Stored>, chunks: Seq<ChunkView>)
    requires
        chunks.to_multiset() == rows.map_values(|r: Stored| r.chunk).to_multiset(),
    ensures
        mirrors(rows, docs_of(chunks)),
{
    let g = |c: ChunkView| doc_of(c);
    let held = rows.map_values(|r: Stored| r.chunk);
    lemma_map_multiset(chunks, held, g);
    assert(stored_docs(rows) =~= held.map_values(g));
}

/// Sequences with the same elements have the same images.
pub proof fn lemma_map_multiset<A, B>(s: Seq<A>, t: Seq<A>, f: spec_fn(A) -> B)
    requires
        s.to_multiset() == t.to_multiset(),
    ensures
        s.map_values(f).to_multiset() == t.map_values(f).to_multiset(),
    decreases s.len(),
{
    broadcast use vstd::seq_lib::group_to_multiset_ensures;
    broadcast use vstd::multiset::group_multiset_axioms;

    assert(s.len() == s.to_multiset().len());
    assert(t.len() == t.to_multiset().len());
    if s.len() == 0 {
        assert(s.map_values(f) =~= t.map_values(f));
    } else {
        let x = s.last();
        let d = s.drop_last();
        assert(s =~= d.push(x));
        assert(s.to_multiset() =~= d.to_multiset().insert(x));
        assert(t.to_multiset().count(x) > 0);
        assert(t.contains(x));
        let k = choose|k: int| 0 <= k < t.len() && t[k] == x;
        let u = t.remove(k);
        assert(t =~= t.take(k) + seq![x] + t.skip(k + 1));
        assert(u =~= t.take(k) + t.skip(k + 1));
        vstd::seq_lib::to_multiset_remove(t, k);
        assert(u.to_multiset() =~= t.to_multiset().remove(x));
        assert(d.to_multiset() =~= u.to_multiset());
        lemma_map_multiset(d, u, f);
        let m = t.map_values(f);
        assert(s.map_values(f) =~= d.map_values(f).push(f(x)));
        assert(m.remove(k) =~= u.map_values(f));
        vstd::seq_lib::to_multiset_remove(m, k);
        assert(m[k] == f(x));
        assert(m.contains(f(x)));
        assert(m.to_multiset() =~= u.map_values(f).to_multiset().insert(f(x)));
        assert(s.map_values(f).to_multiset() =~= m.to_multiset());
    }
}

proof fn lemma_mirror_filter(
    rows: Seq<Stored>,
    docs: Seq<DocView>,
    p: spec_fn(Stored) -> bool,
    q: spec_fn(DocView) -> bool,
)
    requires
        mirrors(rows, docs),
        forall|i: int| 0 <= i < rows.len() ==> p(#[trigger] rows[i]) == q(doc_of(rows[i].chunk)),
    ensures
        mirrors(rows.filter(p), docs.filter(q)),
{
    let f = |r: Stored| doc_of(r.chunk);
    assert forall|i: int| 0 <= i < rows.len() implies p(#[trigger] rows[i]) == q(f(rows[i])) by {}
    lemma_filter_map(rows, f, p, q);
    assert(stored_docs(rows.filter(p)) == stored_docs(rows).filter(q));
    lemma_filter_multiset(stored_docs(rows), q);
    lemma_filter_multiset(docs, q);
}

proof fn lemma_mirror_add(
    rows: Seq<Stored>,
    docs: Seq<DocView>,
    chunks: Seq<ChunkView>,
    embedded: bool,
)
    requires
        mirrors(rows, docs),
    ensures
        mirrors(
            rows + chunks.map_values(|c: ChunkView| Stored { chunk: c, embedded: embedded }),
            docs + docs_of(chunks),
        ),
{
    let add = chunks.map_values(|c: ChunkView| Stored { chunk: c, embedded: embedded });
    assert(stored_docs(rows + add) =~= stored_docs(rows) + docs_of(chunks));
    vstd::seq_lib::lemma_multiset_commutative(stored_docs(rows), docs_of(chunks));
    vstd::seq_lib::lemma_multiset_commutative(docs, docs_of(chunks));
}

proof fn lemma_same_document(chunks: Seq<ChunkView>, source: Seq<char>, d: Seq<char>)
    requires
        chunks.len() > 0,
        forall|i: int| 0 <= i < chunks.len() ==> (#[trigger] chunks[i]).document_id == id_of(source),
    ensures
        has_document(chunks, d) <==> d == id_of(source),
{
    assert(chunks[0].document_id == id_of(source));
}

/// Ingesting a document keeps the index a mirror of the store, with embeddings or
/// without: the store replaces what it held of the document, and so does the
/// index.
pub proof fn ingesting_keeps_the_mirror(
    rows: Seq<Stored>,
    s: RagView,
    source: Seq<char>,
    content: Seq<char>,
    now: i64,
    embedded: bool,
)
    requires
        mirrors(rows, s.docs),
        well_filed(rows),
        id_is_free(rows, source),
        s.cfg.chunk_chars > 0,
        !all_white(content),
    ensures
        ({
            let chunks = document_chunks(s.cfg, source, content, now);
            &&& mirrors(
                replaced(rows, chunks, embedded),
                without_source(s.docs, source) + docs_of(chunks),
            )
            &&& well_filed(replaced(rows, chunks, embedded))
        }),
{
    let chunks = document_chunks(s.cfg, source, content, now);
    let texts = chunk_texts(content, s.cfg.chunk_chars as int, s.cfg.overlap_chars as int);
    chunks_fit(content, s.cfg.chunk_chars as int, s.cfg.overlap_chars as int);
    assert forall|i: int| 0 <= i < chunks.len() implies (#[trigger] chunks[i]).document_id == id_of(
        source,
    ) && chunks[i].source == source by {
        assert(chunks[i] == chunk_view(source, i, texts[i], now));
    }
    let p = |r: Stored| !has_document(chunks, r.chunk.document_id);
    let q = |d: DocView| d.source != source;
    assert forall|i: int| 0 <= i < rows.len() implies p(#[trigger] rows[i]) == q(
        doc_of(rows[i].chunk),
    ) by {
        lemma_same_document(chunks, source, rows[i].chunk.document_id);
    }
    lemma_mirror_filter(rows, s.docs, p, q);
    lemma_mirror_add(rows.filter(p), s.docs.filter(q), chunks, embedded);
    let f = |c: ChunkView| Stored { chunk: c, embedded: embedded };
    let all = replaced(rows, chunks, embedded);
    assert(all == rows.filter(p) + chunks.map_values(f));
    assert forall|i: int| 0 <= i < all.len() implies (#[trigger] all[i]).chunk.document_id == id_of(
        all[i].chunk.source,
    ) by {
        if i < rows.filter(p).len() {
            assert(rows.filter(p).contains(all[i]));
            rows.lemma_filter_contains_rev(p, all[i]);
            let k = choose|k: int| 0 <= k < rows.len() && rows[k] == all[i];
            assert(rows[k].chunk.document_id == id_of(rows[k].chunk.source));
        } else {
            assert(chunks[i - rows.filter(p).len()].document_id == id_of(source));
        }
    }
}

/// Removing a source keeps the index a mirror of the store.
pub proof fn removing_keeps_the_mirror(rows: Seq<Stored>, docs: Seq<DocView>, source: Seq<char>)
    requires
        mirrors(rows, docs),
    ensures
        mirrors(rows_without(rows, source), without_source(docs, source)),
{
    let p = |r: Stored| r.chunk.source != source;
    let q = |d: DocView| d.source != source;
    lemma_mirror_filter(rows, docs, p, q);
}

/// The uploads of a snapshot are its chunks whose source was not read afresh, each
/// as often as it is there, and nothing else; in order.
pub proof fn uploads_are_the_rest(snapshot: Seq<ChunkView>, fresh: Seq<Seq<char>>)
    ensures
        uploads_of(snapshot, fresh).to_multiset() == snapshot.to_multiset().filter(
            |c: ChunkView| !fresh.contains(c.source),
        ),
        forall|i: int|
            0 <= i < snapshot.len() && !fresh.contains((#[trigger] snapshot[i]).source)
                ==> uploads_of(snapshot, fresh).contains(snapshot[i]),
        crate::order::in_order(uploads_of(snapshot, fresh), chunk_order()),
{
    broadcast use vstd::seq_lib::group_to_multiset_ensures;
    broadcast use vstd::multiset::group_multiset_axioms;

    let p = |c: ChunkView| !fresh.contains(c.source);
    let kept = snapshot.filter(p);
    let r = uploads_of(snapshot, fresh);
    lemma_chunk_order();
    sorting_orders_and_keeps(kept, chunk_order());
    lemma_filter_multiset(snapshot, p);
    assert forall|i: int|
        0 <= i < snapshot.len() && !fresh.contains(
            (#[trigger] snapshot[i]).source,
        ) implies r.contains(snapshot[i]) by {
        snapshot.lemma_filter_contains(p, i);
        assert(kept.contains(snapshot[i]));
        assert(kept.to_multiset().count(snapshot[i]) > 0);
        assert(r.to_multiset().count(snapshot[i]) > 0);
    }
}

/// Without embeddings every search is a keyword search, and what it finds is
/// evidence: retrieval degrades and does not fail.
pub proof fn retrieval_degrades_to_keywords(
    s: RagView,
    requested: RetrievalMode,
    stored: usize,
    keyword: Seq<HitView>,
    vector: Seq<HitView>,
    fused: Seq<Score>,
    top_k: int,
    min_similarity: Score,
)
    requires
        !s.embedder || stored == 0,
    ensures
        effective_mode(s, requested, stored) == RetrievalMode::Keyword,
        result_hits(effective_mode(s, requested, stored), keyword, vector, fused, top_k) == keyword,
        is_confident(
            effective_mode(s, requested, stored),
            keyword,
            keyword,
            vector,
            min_similarity,
        ) <==> keyword.len() > 0,
{
}

/// Evidence is used: what is found counts if it was found by keyword, or if the
/// nearest chunk is similar enough; and nothing else counts.
pub proof fn strong_evidence_is_used(
    mode: RetrievalMode,
    hits: Seq<HitView>,
    keyword: Seq<HitView>,
    vector: Seq<HitView>,
    min_similarity: Score,
)
    requires
        hits.len() > 0,
    ensures
        mode == RetrievalMode::Keyword ==> is_confident(
            mode,
            hits,
            keyword,
            vector,
            min_similarity,
        ),
        mode != RetrievalMode::Keyword && vector.len() > 0 && vector[0].score.reaches(min_similarity)
            ==> is_confident(mode, hits, keyword, vector, min_similarity),
        mode == RetrievalMode::Hybrid && keyword.len() > 0 ==> is_confident(
            mode,
            hits,
            keyword,
            vector,
            min_similarity,
        ),
        mode == RetrievalMode::Vector && vector.len() > 0 ==> is_confident(
            mode,
            hits,
            keyword,
            vector,
            min_similarity,
        ) == vector[0].score.reaches(min_similarity),
        mode == RetrievalMode::Hybrid && keyword.len() == 0 && vector.len() > 0 ==> is_confident(
            mode,
            hits,
            keyword,
            vector,
            min_similarity,
        ) == vector[0].score.reaches(min_similarity),
        mode != RetrievalMode::Keyword && keyword.len() == 0 && vector.len() == 0
            && min_similarity.positive() ==> !is_confident(
            mode,
            hits,
            keyword,
            vector,
            min_similarity,
        ),
{
}

/// Without hits there is no evidence.
pub proof fn nothing_found_is_no_evidence(
    mode: RetrievalMode,
    keyword: Seq<HitView>,
    vector: Seq<HitView>,
    min_similarity: Score,
)
    ensures
        !is_confident(mode, Seq::empty(), keyword, vector, min_similarity),
{
}

/// With embeddings a query is answered in the mode that was asked for, and each
/// mode by the hits of its own layers: keyword search by what the index found and
/// vector search by what the store found, both as they are, and hybrid search by
/// the fusion of the two.
pub proof fn embeddings_are_used(
    s: RagView,
    requested: RetrievalMode,
    stored: usize,
    keyword: Seq<HitView>,
    vector: Seq<HitView>,
    fused: Seq<Score>,
    top_k: int,
)
    ensures
        s.embedder && stored > 0 ==> effective_mode(s, requested, stored) == requested,
        result_hits(RetrievalMode::Keyword, keyword, vector, fused, top_k) == keyword,
        result_hits(RetrievalMode::Vector, keyword, vector, fused, top_k) == vector,
        result_hits(RetrievalMode::Hybrid, keyword, vector, fused, top_k) == fusion(
            seq![keyword, vector],
            fused,
            top_k,
        ),
{
}

/// Where nothing is similar enough and no keyword was found, the model is told
/// that there is not enough evidence, and no document is cited.
pub proof fn weak_evidence_is_admitted(
    mode: RetrievalMode,
    hits: Seq<HitView>,
    keyword: Seq<HitView>,
    vector: Seq<HitView>,
    min_similarity: Score,
    scores: Seq<Seq<char>>,
)
    requires
        mode != RetrievalMode::Keyword,
        mode == RetrievalMode::Hybrid ==> keyword.len() == 0,
        vector.len() > 0 ==> !vector[0].score.reaches(min_similarity),
        vector.len() == 0 ==> hits.len() == 0,
    ensures
        !is_confident(mode, hits, keyword, vector, min_similarity),
        hits_context(
            hits,
            mode,
            is_confident(mode, hits, keyword, vector, min_similarity),
            scores,
        ) == (ContextView { text: NO_EVIDENCE@, sources: Seq::empty(), truncated: true }),
{
}

proof fn lemma_same_holds(a: Seq<HitView>, b: Seq<HitView>, h: HitView)
    requires
        a.to_multiset() == b.to_multiset(),
        holds(a, h),
    ensures
        holds(b, h),
{
    broadcast use vstd::seq_lib::group_to_multiset_ensures;

    let k = choose|k: int| 0 <= k < a.len() && same_chunk(#[trigger] a[k], h);
    assert(a.contains(a[k]));
    assert(a.to_multiset().count(a[k]) > 0);
    assert(b.to_multiset().count(a[k]) > 0);
    assert(b.contains(a[k]));
    let j = choose|j: int| 0 <= j < b.len() && b[j] == a[k];
    assert(same_chunk(b[j], h));
}

/// Where enough hits are asked for, fusion finds the chunks that one of the layers
/// found.
pub proof fn fusion_finds_what_a_layer_found(
    keyword: Seq<HitView>,
    vector: Seq<HitView>,
    scores: Seq<Score>,
    top_k: int,
    h: HitView,
)
    requires
        scores.len() == groups(seq![keyword, vector]).len(),
        top_k >= groups(seq![keyword, vector]).len(),
    ensures
        holds(fusion(seq![keyword, vector], scores, top_k), h) <==> holds(keyword, h) || holds(
            vector,
            h,
        ),
{
    let lists = seq![keyword, vector];
    let r = fusion(lists, scores, top_k);
    assert(lists[0] == keyword && lists[1] == vector);
    if holds(r, h) {
        let i = choose|i: int| 0 <= i < r.len() && same_chunk(#[trigger] r[i], h);
        fusion_ranks_without_duplicates(lists, scores, top_k);
        assert(fused_from(lists, scores, r[i]));
        let g = choose|g: int|
            0 <= g < groups(lists).len() && r[i] == fused_hit(
                #[trigger] groups(lists)[g],
                scores[g],
            ) && listed(lists, groups(lists)[g].hit);
        let (l, k) = choose|l: int, k: int|
            0 <= l < lists.len() && 0 <= k < lists[l].len() && #[trigger] lists[l][k] == groups(
                lists,
            )[g].hit;
        assert(same_chunk(lists[l][k], h));
        if l == 0 {
            assert(same_chunk(keyword[k], h));
        } else {
            assert(same_chunk(vector[k], h));
        }
    }
    if holds(keyword, h) {
        let k = choose|k: int| 0 <= k < keyword.len() && same_chunk(#[trigger] keyword[k], h);
        fusion_loses_no_chunk(lists, scores, top_k, 0, k);
        let i = choose|i: int| 0 <= i < r.len() && same_chunk(#[trigger] r[i], lists[0][k]);
        assert(same_chunk(r[i], h));
    }
    if holds(vector, h) {
        let k = choose|k: int| 0 <= k < vector.len() && same_chunk(#[trigger] vector[k], h);
        fusion_loses_no_chunk(lists, scores, top_k, 1, k);
        let i = choose|i: int| 0 <= i < r.len() && same_chunk(#[trigger] r[i], lists[1][k]);
        assert(same_chunk(r[i], h));
    }
}

proof fn lemma_both_empty(a: Seq<HitView>, b: Seq<HitView>)
    requires
        forall|h: HitView| holds(a, h) <==> #[trigger] holds(b, h),
    ensures
        a.len() == 0 <==> b.len() == 0,
{
    if a.len() > 0 {
        assert(same_chunk(a[0], a[0]));
        assert(holds(a, a[0]));
        assert(holds(b, a[0]));
    }
    if b.len() > 0 {
        assert(same_chunk(b[0], b[0]));
        assert(holds(b, b[0]));
        assert(holds(a, b[0]));
    }
}

/// Each hit is a chunk that is stored.
pub open spec fn drawn_from(rows: Seq<Stored>, hits: Seq<HitView>) -> bool {
    forall|i: int| 0 <= i < hits.len() ==> is_stored(rows, #[trigger] hits[i])
}

/// The chunk of a hit is stored.
pub open spec fn is_stored(rows: Seq<Stored>, h: HitView) -> bool {
    exists|r: int|
        0 <= r < rows.len() && (#[trigger] rows[r]).chunk.document_id == h.document_id
            && rows[r].chunk.chunk_id == h.chunk_id
}

/// The number of stored chunks of a source.
pub open spec fn stored_of(rows: Seq<Stored>, source: Seq<char>) -> nat {
    rows.filter(|r: Stored| r.chunk.source == source).len()
}

/// The number of indexed chunks of a source.
pub open spec fn indexed_of(docs: Seq<DocView>, source: Seq<char>) -> nat {
    docs.filter(|d: DocView| d.source == source).len()
}

/// The index knows the sources of the store, each with as many chunks.
pub open spec fn same_sources(rows: Seq<Stored>, docs: Seq<DocView>) -> bool {
    forall|source: Seq<char>| #[trigger] stored_of(rows, source) == indexed_of(docs, source)
}

/// Two searches find the same chunks of the same documents.
pub open spec fn same_chunks_found(a: Seq<HitView>, b: Seq<HitView>) -> bool {
    forall|h: HitView| holds(a, h) <==> #[trigger] holds(b, h)
}

proof fn lemma_counts_mirror(rows: Seq<Stored>, docs: Seq<DocView>, source: Seq<char>)
    requires
        mirrors(rows, docs),
    ensures
        stored_of(rows, source) == indexed_of(docs, source),
        rows.len() == docs.len(),
{
    broadcast use vstd::seq_lib::group_to_multiset_ensures;

    let p = |r: Stored| r.chunk.source == source;
    let q = |d: DocView| d.source == source;
    lemma_mirror_filter(rows, docs, p, q);
    let kept = stored_docs(rows.filter(p));
    assert(kept.len() == kept.to_multiset().len());
    assert(docs.filter(q).len() == docs.filter(q).to_multiset().len());
    assert(stored_docs(rows).len() == stored_docs(rows).to_multiset().len());
    assert(docs.len() == docs.to_multiset().len());
}

proof fn lemma_found_is_stored(
    rows: Seq<Stored>,
    docs: Seq<DocView>,
    query: Seq<char>,
    top_k: int,
    scores: Seq<Score>,
)
    requires
        mirrors(rows, docs),
        top_k >= 0,
        scores.len() == docs.len(),
    ensures
        drawn_from(rows, found(docs, query, top_k, scores)),
{
    broadcast use vstd::seq_lib::group_to_multiset_ensures;

    let hits = found(docs, query, top_k, scores);
    keyword_hits_are_ranked(docs, query, top_k, scores);
    assert forall|i: int| 0 <= i < hits.len() implies is_stored(rows, #[trigger] hits[i]) by {
        let j = choose|j: int|
            0 <= j < docs.len() && shares((#[trigger] docs[j]).text, query_terms(query))
                && hits[i] == hit_of(docs[j], scores[j]);
        assert(docs.contains(docs[j]));
        assert(docs.to_multiset().count(docs[j]) > 0);
        assert(stored_docs(rows).to_multiset().count(docs[j]) > 0);
        assert(stored_docs(rows).contains(docs[j]));
        let r = choose|r: int| 0 <= r < rows.len() && stored_docs(rows)[r] == docs[j];
        assert(doc_of(rows[r].chunk) == docs[j]);
        assert(rows[r].chunk.chunk_id == hits[i].chunk_id);
    }
}

/// What is found in the store and in the index is fused to no more hits than there
/// are stored chunks.
pub proof fn fusion_is_bounded_by_the_store(
    rows: Seq<Stored>,
    keyword: Seq<HitView>,
    vector: Seq<HitView>,
)
    requires
        drawn_from(rows, keyword),
        drawn_from(rows, vector),
    ensures
        groups(seq![keyword, vector]).len() <= rows.len(),
{
    let lists = seq![keyword, vector];
    let gs = groups(lists);
    let keys = gs.map_values(|g: GroupView| (g.hit.document_id, g.hit.chunk_id));
    let held = rows.map_values(|r: Stored| (r.chunk.document_id, r.chunk.chunk_id));
    gathering_merges_duplicates(lists);
    assert(keys.no_duplicates()) by {
        assert forall|i: int, j: int| 0 <= i < j < keys.len() implies keys[i] != keys[j] by {
            assert(!same_chunk(gs[i].hit, gs[j].hit));
        }
    }
    assert forall|k: (Seq<char>, usize)| keys.to_set().contains(k) implies #[trigger] held.to_set().contains(
        k,
    ) by {
        let i = choose|i: int| 0 <= i < keys.len() && keys[i] == k;
        assert(listed(lists, gs[i].hit));
        let (l, n) = choose|l: int, n: int|
            0 <= l < lists.len() && 0 <= n < lists[l].len() && #[trigger] lists[l][n] == gs[i].hit;
        assert(is_stored(rows, lists[l][n])) by {
            if l == 0 {
                assert(is_stored(rows, keyword[n]));
            } else {
                assert(is_stored(rows, vector[n]));
            }
        }
        let r = choose|r: int|
            0 <= r < rows.len() && (#[trigger] rows[r]).chunk.document_id == gs[i].hit.document_id
                && rows[r].chunk.chunk_id == gs[i].hit.chunk_id;
        assert(held[r] == k);
        assert(held.contains(k));
    }
    keys.unique_seq_to_set();
    held.lemma_cardinality_of_set();
    vstd::seq_lib::seq_to_set_is_finite(held);
    assert(keys.to_set().subset_of(held.to_set()));
    vstd::set_lib::lemma_len_subset(keys.to_set(), held.to_set());
}

/// What was indexed stays searchable: a system that is opened anew on what is
/// stored knows the same sources, each with as many chunks, and answers every
/// query in the same mode, with the same confidence and with the same chunks as
/// the one that stored it, where no fewer hits are asked for than chunks are
/// stored. The store gives the same `vector` hits for both, and `f` is the score
/// that a chunk has by the counts of the index, which do not depend on its order.
pub proof fn reopening_keeps_what_is_found(
    rows: Seq<Stored>,
    s: RagView,
    chunks: Seq<ChunkView>,
    requested: RetrievalMode,
    stored: usize,
    query: Seq<char>,
    top_k: int,
    min_similarity: Score,
    vector: Seq<HitView>,
    f: spec_fn(DocView) -> Score,
    fused: Seq<Score>,
    fused_anew: Seq<Score>,
)
    requires
        mirrors(rows, s.docs),
        chunks.to_multiset() == rows.map_values(|r: Stored| r.chunk).to_multiset(),
        top_k >= rows.len(),
        drawn_from(rows, vector),
        fused.len() == groups(
            seq![found(s.docs, query, top_k, s.docs.map_values(f)), vector],
        ).len(),
        fused_anew.len() == groups(
            seq![found(docs_of(chunks), query, top_k, docs_of(chunks).map_values(f)), vector],
        ).len(),
    ensures
        ({
            let anew = RagView { docs: docs_of(chunks), ..s };
            let mode = effective_mode(s, requested, stored);
            let a = found(s.docs, query, top_k, s.docs.map_values(f));
            let b = found(anew.docs, query, top_k, anew.docs.map_values(f));
            let x = result_hits(mode, a, vector, fused, top_k);
            let y = result_hits(mode, b, vector, fused_anew, top_k);
            &&& effective_mode(anew, requested, stored) == mode
            &&& is_confident(mode, x, a, vector, min_similarity) == is_confident(
                mode,
                y,
                b,
                vector,
                min_similarity,
            )
            &&& same_chunks_found(x, y)
            &&& same_sources(rows, s.docs)
            &&& same_sources(rows, anew.docs)
        }),
{
    let anew = RagView { docs: docs_of(chunks), ..s };
    let mode = effective_mode(s, requested, stored);
    opening_mirrors_the_store(rows, chunks);
    assert(s.docs.to_multiset() == anew.docs.to_multiset());
    lemma_counts_mirror(rows, s.docs, Seq::empty());
    assert forall|source: Seq<char>|
        #[trigger] stored_of(rows, source) == indexed_of(s.docs, source) by {
        lemma_counts_mirror(rows, s.docs, source);
    }
    assert forall|source: Seq<char>|
        #[trigger] stored_of(rows, source) == indexed_of(anew.docs, source) by {
        lemma_counts_mirror(rows, anew.docs, source);
    }
    searches_do_not_depend_on_the_order(s.docs, anew.docs, query, top_k, f);
    let a = found(s.docs, query, top_k, s.docs.map_values(f));
    let b = found(anew.docs, query, top_k, anew.docs.map_values(f));
    lemma_found_is_stored(rows, s.docs, query, top_k, s.docs.map_values(f));
    lemma_found_is_stored(rows, anew.docs, query, top_k, anew.docs.map_values(f));
    fusion_is_bounded_by_the_store(rows, a, vector);
    fusion_is_bounded_by_the_store(rows, b, vector);
    let x = result_hits(mode, a, vector, fused, top_k);
    let y = result_hits(mode, b, vector, fused_anew, top_k);
    assert forall|h: HitView| holds(x, h) <==> #[trigger] holds(y, h) by {
        if holds(a, h) {
            lemma_same_holds(a, b, h);
        }
        if holds(b, h) {
            lemma_same_holds(b, a, h);
        }
        if mode == RetrievalMode::Hybrid {
            fusion_finds_what_a_layer_found(a, vector, fused, top_k, h);
            fusion_finds_what_a_layer_found(b, vector, fused_anew, top_k, h);
        }
    }
    lemma_both_empty(x, y);
}

} // verus!
