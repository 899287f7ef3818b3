//! The state of retrieval: settings, the keyword index, and whether an embedding
//! model is loaded; and the decisions that ingesting, removing, rebuilding and
//! retrieving take.
//!
//! The chunk store and the embedding model are asked by whoever holds them. Each
//! operation is told what they answered.
use vstd::prelude::*;

use crate::config::{Config, ConfigView};
use crate::order::{is_order, sorted_by, stable_sort, Ranked};
use crate::rag::bm25::{doc_of, found, without_source, Bm25Index, DocView};
use crate::rag::chunk::{chunk_document_at, document_chunks};
use crate::rag::chunk_laws::chunks_fit;
use crate::rag::hybrid::{fusion, groups, reciprocal_rank_fusion};
use crate::rag::score::Score;
use crate::rag::store::{check_dimension, StoreError};
use crate::rag::types::{
    mode_named, now_unix, ChunkView, Hit, HitView, RagConfig, RagConfigView, RetrievalMode,
    StoredChunk,
};
use crate::search::{
    comes_before, lemma_text_before_total, lemma_text_before_trans, same_text, text_before,
};
use crate::text::{all_white, lowered, trim};

verus! {

// ── Errors ───────────────────────────────────────────────────────────────────

/// Why a request on the documents fails.
#[derive(Debug)]
pub enum RagError {
    /// A document without text.
    NoReadableText(String),
    /// A search before there is anything to search.
    NoDocuments,
}

/// What a [`RagError`] stands for.
#[verifier::ext_equal]
pub enum RagErrorView {
    NoReadableText(Seq<char>),
    NoDocuments,
}

impl View for RagError {
    type V = RagErrorView;

    open spec fn view(&self) -> RagErrorView {
        match self {
            RagError::NoReadableText(s) => RagErrorView::NoReadableText(s@),
            RagError::NoDocuments => RagErrorView::NoDocuments,
        }
    }
}

/// What an error says.
pub open spec fn rag_error_text(e: RagErrorView) -> Seq<char> {
    match e {
        RagErrorView::NoReadableText(s) => "No readable text found in '"@ + s + "'."@,
        RagErrorView::NoDocuments => "No documents are loaded yet. Add a document first."@,
    }
}

impl RagError {
    /// What the error says.
    pub fn message(&self) -> (r: String)
        ensures
            r@ == rag_error_text(self@),
    {
        match self {
            RagError::NoReadableText(s) => {
                let mut r = "No readable text found in '".to_owned();
                r.push_str(s.as_str());
                r.push_str("'.");
                r
            },
            RagError::NoDocuments => "No documents are loaded yet. Add a document first.".to_owned(),
        }
    }
}

// ── The system ───────────────────────────────────────────────────────────────

/// The state of retrieval.
pub struct RagSystem {
    cfg: RagConfig,
    dim: usize,
    bm25: Bm25Index,
    embedder: bool,
}

/// What a [`RagSystem`] stands for.
#[verifier::ext_equal]
pub struct RagView {
    pub cfg: RagConfigView,
    /// Dimension of the vector store.
    pub dim: usize,
    /// The keyword index.
    pub docs: Seq<DocView>,
    /// An embedding model is loaded.
    pub embedder: bool,
}

impl View for RagSystem {
    type V = RagView;

    closed spec fn view(&self) -> RagView {
        RagView { cfg: self.cfg@, dim: self.dim, docs: self.bm25@, embedder: self.embedder }
    }
}

/// What the keyword index knows of chunks.
pub open spec fn docs_of(chunks: Seq<ChunkView>) -> Seq<DocView> {
    chunks.map_values(|c: ChunkView| doc_of(c))
}

/// The dimension of the store: that of the embedding model if one is loaded,
/// else the configured one.
pub open spec fn dimension_for(cfg: RagConfigView, embedder: Option<usize>) -> usize {
    match embedder {
        Some(d) => d,
        None => cfg.embedding_dim,
    }
}

/// The dimension of the store: that of the embedding model if one is loaded,
/// else the configured one.
pub fn store_dimension(cfg: &RagConfig, embedder: Option<usize>) -> (r: usize)
    ensures
        r == dimension_for(cfg@, embedder),
{
    match embedder {
        Some(d) => d,
        None => cfg.embedding_dim,
    }
}

/// A document that is ready to be stored.
#[derive(Debug)]
pub struct Ingest {
    /// Its chunks.
    pub chunks: Vec<StoredChunk>,
    /// Whether the chunks are to be embedded; else they are stored as text and
    /// found by keyword only.
    pub embed: bool,
}

/// The chunks, one after the other, added to the index.
fn add_all(bm25: &mut Bm25Index, chunks: &[StoredChunk])
    ensures
        final(bm25)@ == old(bm25)@ + docs_of(chunks.deep_view()),
{
    let ghost all = docs_of(chunks.deep_view());
    let ghost before = bm25@;
    let mut i: usize = 0;
    proof {
        assert(before + all.take(0) =~= before);
    }
    while i < chunks.len()
        invariant
            i <= chunks@.len(),
            all == docs_of(chunks.deep_view()),
            all.len() == chunks@.len(),
            bm25@ == before + all.take(i as int),
        decreases chunks@.len() - i,
    {
        bm25.add(&chunks[i]);
        proof {
            assert(all[i as int] == doc_of(chunks@[i as int]@));
            assert((before + all.take(i as int)).push(all[i as int]) =~= before + all.take(i + 1));
        }
        i = i + 1;
    }
    proof {
        assert(all.take(i as int) =~= all);
    }
}

/// What ingesting a document at time `now` is answered: an error if it holds no
/// text, else its chunks.
pub open spec fn ingested(
    s: RagView,
    source: Seq<char>,
    content: Seq<char>,
    now: i64,
    r: Result<Ingest, RagError>,
) -> bool {
    match r {
        Ok(i) => !all_white(content) && i.chunks.deep_view() == document_chunks(
            s.cfg,
            source,
            content,
            now,
        ) && i.embed == s.embedder,
        Err(e) => all_white(content) && e@ == RagErrorView::NoReadableText(source),
    }
}

impl RagSystem {
    /// Opens the system on what is stored: the dimension of the loaded embedding
    /// model, if any, and all stored chunks, from which the keyword index is
    /// rebuilt.
    pub fn open(cfg: RagConfig, embedder: Option<usize>, stored: &[StoredChunk]) -> (r: Result<
        RagSystem,
        StoreError,
    >)
        ensures
            match r {
                Ok(s) => dimension_for(cfg@, embedder) > 0 && s@ == (RagView {
                    cfg: cfg@,
                    dim: dimension_for(cfg@, embedder),
                    docs: docs_of(stored.deep_view()),
                    embedder: embedder is Some,
                }),
                Err(e) => dimension_for(cfg@, embedder) == 0 && e == StoreError::ZeroDimension,
            },
    {
        let dim = store_dimension(&cfg, embedder);
        match check_dimension(dim) {
            Err(e) => Err(e),
            Ok(()) => {
                let mut bm25 = Bm25Index::new();
                add_all(&mut bm25, stored);
                let s = RagSystem { cfg: cfg, dim: dim, bm25: bm25, embedder: embedder.is_some() };
                proof {
                    let docs = docs_of(stored.deep_view());
                    assert(Seq::<DocView>::empty() + docs =~= docs);
                }
                Ok(s)
            },
        }
    }

    /// The settings.
    pub fn config(&self) -> (r: &RagConfig)
        ensures
            r@ == self@.cfg,
    {
        &self.cfg
    }

    /// The dimension of the vector store.
    pub fn dimension(&self) -> (r: usize)
        ensures
            r == self@.dim,
    {
        self.dim
    }

    /// The keyword index.
    pub fn index(&self) -> (r: &Bm25Index)
        ensures
            r@ == self@.docs,
    {
        &self.bm25
    }

    /// Whether an embedding model is loaded.
    pub fn embedder(&self) -> (r: bool)
        ensures
            r == self@.embedder,
    {
        self.embedder
    }

    /// Installs an embedding model of the given dimension. One that does not fit
    /// the store is refused, and retrieval stays as it is.
    pub fn set_embedder(&mut self, dimension: usize) -> (r: bool)
        ensures
            r == (dimension == old(self)@.dim),
            final(self)@ == (RagView { embedder: old(self)@.embedder || r, ..old(self)@ }),
    {
        if dimension != self.dim {
            return false;
        }
        self.embedder = true;
        true
    }

    /// Chunks a document at time `now`, to be stored.
    pub fn ingest_at(&self, source: &str, content: &str, now: i64) -> (r: Result<Ingest, RagError>)
        requires
            self@.cfg.chunk_chars > 0 || all_white(content@),
        ensures
            ingested(self@, source@, content@, now, r),
    {
        let chunks = chunk_document_at(&self.cfg, source, content, now);
        proof {
            let n = self.cfg.chunk_chars as int;
            let o = self.cfg.overlap_chars as int;
            if n > 0 {
                chunks_fit(content@, n, o);
            } else {
                lemma_nothing_to_chunk(self.cfg@, source@, content@, now);
            }
            assert(chunks@.len() == chunks.deep_view().len());
        }
        if chunks.len() == 0 {
            return Err(RagError::NoReadableText(source.to_owned()));
        }
        Ok(Ingest { chunks: chunks, embed: self.embedder })
    }

    /// Chunks a document, to be stored now.
    pub fn add_document(&self, source: &str, content: &str) -> (r: Result<Ingest, RagError>)
        requires
            self@.cfg.chunk_chars > 0 || all_white(content@),
        ensures
            exists|now: i64| ingested(self@, source@, content@, now, r),
    {
        self.ingest_at(source, content, now_unix())
    }

    /// Takes a stored document into the keyword index, in place of what it held
    /// of that source. Returns the number of its chunks.
    pub fn index_document(&mut self, source: &str, chunks: &[StoredChunk]) -> (n: usize)
        ensures
            final(self)@ == (RagView {
                docs: without_source(old(self)@.docs, source@) + docs_of(chunks.deep_view()),
                ..old(self)@
            }),
            n == chunks@.len(),
    {
        self.bm25.remove_source(source);
        add_all(&mut self.bm25, chunks);
        chunks.len()
    }

    /// Drops a source of which the store has deleted `deleted` chunks. Returns
    /// whether there were any.
    pub fn remove_source(&mut self, name: &str, deleted: usize) -> (r: bool)
        ensures
            r == (deleted > 0),
            final(self)@ == (RagView {
                docs: if r {
                    without_source(old(self)@.docs, name@)
                } else {
                    old(self)@.docs
                },
                ..old(self)@
            }),
    {
        if deleted > 0 {
            self.bm25.remove_source(name);
            true
        } else {
            false
        }
    }

    /// Makes the keyword index anew of the chunks that a rebuild has stored.
    pub fn reindex(&mut self, chunks: &[StoredChunk])
        ensures
            final(self)@ == (RagView { docs: docs_of(chunks.deep_view()), ..old(self)@ }),
    {
        self.bm25.clear();
        add_all(&mut self.bm25, chunks);
        proof {
            let docs = docs_of(chunks.deep_view());
            assert(Seq::<DocView>::empty() + docs =~= docs);
        }
    }

    /// The mode in which a query is answered when `stored` chunks are stored:
    /// the requested one, or keywords where there are no embeddings.
    pub fn mode_for(&self, requested: RetrievalMode, stored: usize) -> (r: RetrievalMode)
        ensures
            r == effective_mode(self@, requested, stored),
    {
        if self.embedder && stored > 0 {
            requested
        } else {
            RetrievalMode::Keyword
        }
    }

    /// Concludes a retrieval when `stored` chunks are stored, from the hits of the
    /// keyword index, those of the vector store, and the fused scores of both.
    pub fn retrieve(
        &self,
        requested: RetrievalMode,
        stored: usize,
        top_k: usize,
        min_similarity: Score,
        keyword_hits: Vec<Hit>,
        vector_hits: Vec<Hit>,
        fused: &[Score],
    ) -> (r: RetrievalResult)
        requires
            effective_mode(self@, requested, stored) == RetrievalMode::Hybrid ==> fused@.len()
                == groups(seq![keyword_hits.deep_view(), vector_hits.deep_view()]).len(),
        ensures
            r.mode == effective_mode(self@, requested, stored),
            r.hits.deep_view() == result_hits(
                r.mode,
                keyword_hits.deep_view(),
                vector_hits.deep_view(),
                fused@,
                top_k as int,
            ),
            r.confident == is_confident(
                r.mode,
                r.hits.deep_view(),
                keyword_hits.deep_view(),
                vector_hits.deep_view(),
                min_similarity,
            ),
    {
        let mode = self.mode_for(requested, stored);
        let keyword_found = keyword_hits.len() > 0;
        let best = if vector_hits.len() > 0 {
            vector_hits[0].score
        } else {
            Score::zero()
        };
        let near = best.is_at_least(min_similarity);
        proof {
            assert(keyword_hits.deep_view().len() == keyword_hits@.len());
            assert(vector_hits.deep_view().len() == vector_hits@.len());
        }
        let hits = match mode {
            RetrievalMode::Keyword => keyword_hits,
            RetrievalMode::Vector => vector_hits,
            RetrievalMode::Hybrid => {
                let ghost lists_view = seq![keyword_hits.deep_view(), vector_hits.deep_view()];
                let mut lists: Vec<Vec<Hit>> = Vec::new();
                lists.push(keyword_hits);
                lists.push(vector_hits);
                proof {
                    assert(lists.deep_view() =~= lists_view);
                }
                reciprocal_rank_fusion(&lists, fused, top_k)
            },
        };
        let confident = hits.len() > 0 && match mode {
            RetrievalMode::Keyword => true,
            RetrievalMode::Vector => near,
            RetrievalMode::Hybrid => keyword_found || near,
        };
        proof {
            assert(hits.deep_view().len() == hits@.len());
        }
        RetrievalResult { hits: hits, mode: mode, confident: confident }
    }

    /// Answers a query when `stored` chunks are stored, from the scores of the
    /// indexed chunks, the hits of the vector store, and the fused score of each
    /// group of hits. The keyword hits are searched for in the index, unless the
    /// query is answered by similarity alone.
    pub fn answer(
        &self,
        query: &str,
        scores: &[Score],
        requested: RetrievalMode,
        stored: usize,
        top_k: usize,
        min_similarity: Score,
        vector_hits: Vec<Hit>,
        fused: &[Score],
    ) -> (r: RetrievalResult)
        requires
            effective_mode(self@, requested, stored) != RetrievalMode::Vector ==> scores@.len()
                == self@.docs.len(),
            effective_mode(self@, requested, stored) == RetrievalMode::Hybrid ==> fused@.len()
                == groups(
                seq![
                    found(self@.docs, query@, top_k as int, scores@),
                    vector_hits.deep_view(),
                ],
            ).len(),
        ensures
            r.mode == effective_mode(self@, requested, stored),
            r.hits.deep_view() == result_hits(
                r.mode,
                found(self@.docs, query@, top_k as int, scores@),
                vector_hits.deep_view(),
                fused@,
                top_k as int,
            ),
            r.confident == is_confident(
                r.mode,
                r.hits.deep_view(),
                found(self@.docs, query@, top_k as int, scores@),
                vector_hits.deep_view(),
                min_similarity,
            ),
    {
        let keyword_hits = match self.mode_for(requested, stored) {
            RetrievalMode::Vector => Vec::new(),
            _ => self.bm25.search(query, top_k, scores),
        };
        self.retrieve(
            requested,
            stored,
            top_k,
            min_similarity,
            keyword_hits,
            vector_hits,
            fused,
        )
    }
}

proof fn lemma_nothing_to_chunk(
    cfg: RagConfigView,
    source: Seq<char>,
    content: Seq<char>,
    now: i64,
)
    requires
        cfg.chunk_chars == 0,
        all_white(content),
    ensures
        document_chunks(cfg, source, content, now).len() == 0,
{
    crate::rag::chunk::lemma_white_has_no_paragraphs(content);
}

// ── Retrieval ────────────────────────────────────────────────────────────────

/// The outcome of a retrieval.
#[derive(Debug)]
pub struct RetrievalResult {
    /// The hits, the best first.
    pub hits: Vec<Hit>,
    /// The mode that was used.
    pub mode: RetrievalMode,
    /// Whether there is enough evidence to answer from.
    pub confident: bool,
}

impl RetrievalResult {
    /// The outcome of a retrieval that failed.
    pub fn failed(mode: RetrievalMode) -> (r: RetrievalResult)
        ensures
            r.hits@.len() == 0,
            r.mode == mode,
            !r.confident,
    {
        RetrievalResult { hits: Vec::new(), mode: mode, confident: false }
    }
}

/// The mode in which a query is answered when `stored` chunks are stored.
pub open spec fn effective_mode(s: RagView, requested: RetrievalMode, stored: usize) -> RetrievalMode {
    if s.embedder && stored > 0 {
        requested
    } else {
        RetrievalMode::Keyword
    }
}

/// The hits of a retrieval.
pub open spec fn result_hits(
    mode: RetrievalMode,
    keyword: Seq<HitView>,
    vector: Seq<HitView>,
    fused: Seq<Score>,
    top_k: int,
) -> Seq<HitView> {
    match mode {
        RetrievalMode::Keyword => keyword,
        RetrievalMode::Vector => vector,
        RetrievalMode::Hybrid => fusion(seq![keyword, vector], fused, top_k),
    }
}

/// The similarity of the nearest chunk, or 0.
pub open spec fn best_similarity(vector: Seq<HitView>) -> Score {
    if vector.len() > 0 {
        vector[0].score
    } else {
        Score { bits: 0 }
    }
}

/// Whether hits are evidence enough: a keyword hit is real overlap of terms; a
/// vector hit counts if it is similar enough.
pub open spec fn is_confident(
    mode: RetrievalMode,
    hits: Seq<HitView>,
    keyword: Seq<HitView>,
    vector: Seq<HitView>,
    min_similarity: Score,
) -> bool {
    hits.len() > 0 && match mode {
        RetrievalMode::Keyword => true,
        RetrievalMode::Vector => best_similarity(vector).reaches(min_similarity),
        RetrievalMode::Hybrid => keyword.len() > 0 || best_similarity(vector).reaches(
            min_similarity,
        ),
    }
}

/// What a search asks for.
#[derive(Debug, Clone, Copy, PartialEq, Eq, Structural)]
pub struct RetrievalQuery {
    pub mode: RetrievalMode,
    pub top_k: usize,
}

/// How many chunks the settings ask for: at least one.
pub open spec fn configured_top_k(c: ConfigView) -> usize {
    if c.top_k == 0 {
        1
    } else {
        c.top_k
    }
}

/// How many chunks the settings ask for: at least one.
pub fn top_k_of(cfg: &Config) -> (r: usize)
    ensures
        r == configured_top_k(cfg@),
{
    if cfg.top_k == 0 {
        1
    } else {
        cfg.top_k
    }
}

/// The mode that the settings ask for.
pub open spec fn configured_mode(c: ConfigView) -> RetrievalMode {
    mode_named(lowered(trim(c.retrieval_mode)))
}

/// Checks a search for `k` chunks when `stored` chunks are stored. With `k` 0 the
/// settings say how many.
pub fn retrieve(cfg: &Config, system: &RagSystem, stored: usize, k: usize) -> (r: Result<
    RetrievalQuery,
    RagError,
>)
    ensures
        match r {
            Ok(q) => (stored > 0 || system@.docs.len() > 0) && q == (RetrievalQuery {
                mode: configured_mode(cfg@),
                top_k: if k == 0 {
                    configured_top_k(cfg@)
                } else {
                    k
                },
            }),
            Err(e) => stored == 0 && system@.docs.len() == 0 && e@ == RagErrorView::NoDocuments,
        },
{
    if stored == 0 && system.bm25.is_empty() {
        return Err(RagError::NoDocuments);
    }
    let mode = RetrievalMode::parse(cfg.retrieval_mode.as_str());
    let top_k = if k == 0 {
        top_k_of(cfg)
    } else {
        k
    };
    Ok(RetrievalQuery { mode: mode, top_k: top_k })
}

// ── Rebuilding ───────────────────────────────────────────────────────────────

/// The order of chunks: by source, then by number.
pub open spec fn chunk_order() -> spec_fn(ChunkView, ChunkView) -> bool {
    |a: ChunkView, b: ChunkView|
        text_before(a.source, b.source) || (a.source == b.source && a.chunk_id <= b.chunk_id)
}

/// Any two chunks can be put in order.
pub proof fn lemma_chunk_order()
    ensures
        is_order(chunk_order()),
{
    let le = chunk_order();
    assert forall|a: ChunkView, b: ChunkView| #[trigger] le(a, b) || le(b, a) by {
        lemma_text_before_total(a.source, b.source);
    }
    assert forall|a: ChunkView, b: ChunkView, c: ChunkView| #[trigger]
        le(a, b) && #[trigger] le(b, c) implies le(a, c) by {
        if text_before(a.source, b.source) && text_before(b.source, c.source) {
            lemma_text_before_trans(a.source, b.source, c.source);
        }
    }
}

impl Ranked for StoredChunk {
    open spec fn order() -> spec_fn(ChunkView, ChunkView) -> bool {
        chunk_order()
    }

    fn may_precede(&self, other: &Self) -> (r: bool) {
        comes_before(self.source.as_str(), other.source.as_str()) || (same_text(
            self.source.as_str(),
            other.source.as_str(),
        ) && self.chunk_id <= other.chunk_id)
    }
}

/// The chunks of a snapshot that come from none of the fresh sources, in order.
pub open spec fn uploads_of(snapshot: Seq<ChunkView>, fresh: Seq<Seq<char>>) -> Seq<ChunkView> {
    sorted_by(snapshot.filter(|c: ChunkView| !fresh.contains(c.source)), chunk_order())
}

fn is_among(t: &str, texts: &[String]) -> (r: bool)
    ensures
        r == texts.deep_view().contains(t@),
{
    let ghost all = texts.deep_view();
    let mut i: usize = 0;
    while i < texts.len()
        invariant
            i <= texts@.len(),
            all == texts.deep_view(),
            all.len() == texts@.len(),
            forall|k: int| 0 <= k < i ==> all[k] != t@,
        decreases texts@.len() - i,
    {
        proof {
            assert(all[i as int] == texts@[i as int]@);
        }
        if same_text(texts[i].as_str(), t) {
            return true;
        }
        i = i + 1;
    }
    false
}

/// What a rebuild has to store again from its snapshot: the chunks of all sources
/// but those that were read afresh.
pub fn uploads(snapshot: Vec<StoredChunk>, fresh: &[String]) -> (r: Vec<StoredChunk>)
    ensures
        r.deep_view() == uploads_of(snapshot.deep_view(), fresh.deep_view()),
{
    let ghost all = snapshot.deep_view();
    let ghost p = |c: ChunkView| !fresh.deep_view().contains(c.source);
    let mut kept: Vec<StoredChunk> = Vec::new();
    proof {
        reveal(Seq::filter);
        assert(kept.deep_view() =~= all.take(0).filter(p));
    }
    for c in it: snapshot
        invariant
            all.len() == it.seq().len(),
            p == (|c: ChunkView| !fresh.deep_view().contains(c.source)),
            forall|k: int| 0 <= k < all.len() ==> all[k] == (#[trigger] it.seq()[k])@,
            kept.deep_view() == all.take(it.index()).filter(p),
    {
        let ghost so_far = kept.deep_view();
        proof {
            reveal(Seq::filter);
            let next = all.take(it.index() + 1);
            assert(next.drop_last() =~= all.take(it.index()));
            assert(next.last() == c@);
        }
        if !is_among(c.source.as_str(), fresh) {
            kept.push(c);
            proof {
                assert(kept.deep_view() =~= so_far.push(c@));
            }
        }
    }
    proof {
        assert(all.take(all.len() as int) =~= all);
    }
    stable_sort(kept)
}

// ── Documents on disk ────────────────────────────────────────────────────────

/// What to do with a file of the data directory.
#[derive(Debug, Clone, Copy, PartialEq, Eq, Structural)]
pub enum FileKind {
    /// A database that lives beside the documents; passed over.
    Database,
    /// A text document; to be indexed.
    Document,
    /// A file of another kind; passed over.
    Unsupported,
}

/// What to do with a file, by its name and its extension in lower case.
pub open spec fn file_kind(name: Seq<char>, ext: Seq<char>) -> FileKind {
    if ext == "sqlite"@ || ext == "db"@ || ext == "sqlite-wal"@ || ext == "sqlite-shm"@
        || crate::search::starts(name, "rag_vectors"@) {
        FileKind::Database
    } else if ext == "txt"@ || ext == "md"@ || ext == "markdown"@ || ext == "text"@ {
        FileKind::Document
    } else {
        FileKind::Unsupported
    }
}

/// What to do with a file, by its name and its extension.
pub fn classify_file(name: &str, extension: &str) -> (r: FileKind)
    ensures
        r == file_kind(name@, lowered(extension@)),
{
    let ext = crate::text::lower(extension);
    let e = ext.as_str();
    if same_text(e, "sqlite") || same_text(e, "db") || same_text(e, "sqlite-wal") || same_text(
        e,
        "sqlite-shm",
    ) || crate::search::text_starts(name, "rag_vectors") {
        FileKind::Database
    } else if same_text(e, "txt") || same_text(e, "md") || same_text(e, "markdown") || same_text(
        e,
        "text",
    ) {
        FileKind::Document
    } else {
        FileKind::Unsupported
    }
}

/// A document that was read from the data directory.
#[derive(Debug)]
pub struct Document {
    pub source: String,
    pub content: String,
}

/// What a [`Document`] stands for.
#[verifier::ext_equal]
pub struct DocumentView {
    pub source: Seq<char>,
    pub content: Seq<char>,
}

impl DeepView for Document {
    type V = DocumentView;

    open spec fn deep_view(&self) -> DocumentView {
        DocumentView { source: self.source@, content: self.content@ }
    }
}

/// The order of documents: by source.
pub open spec fn document_order() -> spec_fn(DocumentView, DocumentView) -> bool {
    |a: DocumentView, b: DocumentView| !text_before(b.source, a.source)
}

impl Ranked for Document {
    open spec fn order() -> spec_fn(DocumentView, DocumentView) -> bool {
        document_order()
    }

    fn may_precede(&self, other: &Self) -> (r: bool) {
        !comes_before(other.source.as_str(), self.source.as_str())
    }
}

/// The documents of the data directory in the order in which they are indexed:
/// by source.
pub fn in_source_order(docs: Vec<Document>) -> (r: Vec<Document>)
    ensures
        r.deep_view() == sorted_by(docs.deep_view(), document_order()),
{
    stable_sort(docs)
}

} // verus!
