//! The data of retrieval: chunks, hits, modes and settings.
use vstd::prelude::*;
use vstd::utf8::encode_utf8;

use crate::config::Config;
use crate::config::ConfigView;
use crate::numbers::{hex_fixed, is_hex_lower, lemma_hex_fixed, push_hex_fixed};
use crate::rag::score::Score;
use crate::search::same_text;
use crate::text::{copy_opt, lower, lowered, opt_text, trim, trimmed};

verus! {

// ── Modes ────────────────────────────────────────────────────────────────────

/// How a query is answered.
#[derive(Debug, Clone, Copy, PartialEq, Eq, Structural)]
pub enum RetrievalMode {
    /// By keywords alone; always available.
    Keyword,
    /// By similarity of meaning alone.
    Vector,
    /// By both, merged.
    Hybrid,
}

impl Default for RetrievalMode {
    fn default() -> (r: RetrievalMode)
        ensures
            r == RetrievalMode::Hybrid,
    {
        RetrievalMode::Hybrid
    }
}

/// The mode that a name in lower case stands for. A name that is not known
/// stands for the default.
pub open spec fn mode_named(name: Seq<char>) -> RetrievalMode {
    if name == "keyword"@ || name == "bm25"@ || name == "lexical"@ {
        RetrievalMode::Keyword
    } else if name == "vector"@ || name == "semantic"@ || name == "dense"@ {
        RetrievalMode::Vector
    } else {
        RetrievalMode::Hybrid
    }
}

/// The name of a mode.
pub open spec fn mode_name(m: RetrievalMode) -> Seq<char> {
    match m {
        RetrievalMode::Keyword => "keyword"@,
        RetrievalMode::Vector => "vector"@,
        RetrievalMode::Hybrid => "hybrid"@,
    }
}

impl RetrievalMode {
    /// The mode that a setting names. Never fails: a name that is not known
    /// stands for the default.
    pub fn parse(s: &str) -> (r: RetrievalMode)
        ensures
            r == mode_named(lowered(trim(s@))),
    {
        let t = trimmed(s);
        let name = lower(t.as_str());
        RetrievalMode::from_lower(name.as_str())
    }

    /// The mode that a name in lower case stands for.
    pub fn from_lower(name: &str) -> (r: RetrievalMode)
        ensures
            r == mode_named(name@),
    {
        if same_text(name, "keyword") || same_text(name, "bm25") || same_text(name, "lexical") {
            RetrievalMode::Keyword
        } else if same_text(name, "vector") || same_text(name, "semantic") || same_text(
            name,
            "dense",
        ) {
            RetrievalMode::Vector
        } else {
            RetrievalMode::Hybrid
        }
    }

    /// The name of the mode.
    pub fn as_str(&self) -> (r: &'static str)
        ensures
            r@ == mode_name(*self),
    {
        match self {
            RetrievalMode::Keyword => "keyword",
            RetrievalMode::Vector => "vector",
            RetrievalMode::Hybrid => "hybrid",
        }
    }
}

/// Which layer produced a hit.
#[derive(Debug, Clone, Copy, PartialEq, Eq, Structural)]
pub enum HitSource {
    Keyword,
    Vector,
    Hybrid,
}

// ── Chunks ───────────────────────────────────────────────────────────────────

/// One chunk of a document, with all that is needed to embed it, to rank it and
/// to trace an answer back to it.
#[derive(Debug)]
pub struct StoredChunk {
    /// Id of the whole document, derived from the name of its source.
    pub document_id: String,
    /// Position of the chunk within its document.
    pub chunk_id: usize,
    /// Name of the source.
    pub source: String,
    /// The text of the chunk.
    pub text: String,
    /// The text in lower case with single spaces.
    pub normalized: String,
    /// Number of characters in `text`.
    pub char_count: usize,
    /// Number of words in `text`.
    pub token_count: usize,
    /// When the chunk was indexed, in seconds since the epoch.
    pub created_at: i64,
    /// Free-form metadata, as JSON text.
    pub metadata: Option<String>,
}

/// What a [`StoredChunk`] stands for.
#[verifier::ext_equal]
pub struct ChunkView {
    pub document_id: Seq<char>,
    pub chunk_id: usize,
    pub source: Seq<char>,
    pub text: Seq<char>,
    pub normalized: Seq<char>,
    pub char_count: usize,
    pub token_count: usize,
    pub created_at: i64,
    pub metadata: Option<Seq<char>>,
}

impl View for StoredChunk {
    type V = ChunkView;

    open spec fn view(&self) -> ChunkView {
        ChunkView {
            document_id: self.document_id@,
            chunk_id: self.chunk_id,
            source: self.source@,
            text: self.text@,
            normalized: self.normalized@,
            char_count: self.char_count,
            token_count: self.token_count,
            created_at: self.created_at,
            metadata: opt_text(self.metadata),
        }
    }
}

impl DeepView for StoredChunk {
    type V = ChunkView;

    open spec fn deep_view(&self) -> ChunkView {
        self@
    }
}

impl Clone for StoredChunk {
    fn clone(&self) -> (r: StoredChunk)
        ensures
            r@ == self@,
    {
        StoredChunk {
            document_id: self.document_id.clone(),
            chunk_id: self.chunk_id,
            source: self.source.clone(),
            text: self.text.clone(),
            normalized: self.normalized.clone(),
            char_count: self.char_count,
            token_count: self.token_count,
            created_at: self.created_at,
            metadata: copy_opt(&self.metadata),
        }
    }
}

// ── Hits ─────────────────────────────────────────────────────────────────────

/// A result of a retrieval.
#[derive(Debug)]
pub struct Hit {
    pub text: String,
    pub source: String,
    /// Relevance; higher is better.
    pub score: Score,
    pub document_id: String,
    pub chunk_id: usize,
    /// Which layer surfaced the hit.
    pub retrieval: HitSource,
}

/// What a [`Hit`] stands for.
#[verifier::ext_equal]
pub struct HitView {
    pub text: Seq<char>,
    pub source: Seq<char>,
    pub score: Score,
    pub document_id: Seq<char>,
    pub chunk_id: usize,
    pub retrieval: HitSource,
}

impl View for Hit {
    type V = HitView;

    open spec fn view(&self) -> HitView {
        HitView {
            text: self.text@,
            source: self.source@,
            score: self.score,
            document_id: self.document_id@,
            chunk_id: self.chunk_id,
            retrieval: self.retrieval,
        }
    }
}

impl DeepView for Hit {
    type V = HitView;

    open spec fn deep_view(&self) -> HitView {
        self@
    }
}

impl Clone for Hit {
    fn clone(&self) -> (r: Hit)
        ensures
            r@ == self@,
    {
        Hit {
            text: self.text.clone(),
            source: self.source.clone(),
            score: self.score,
            document_id: self.document_id.clone(),
            chunk_id: self.chunk_id,
            retrieval: self.retrieval,
        }
    }
}

// ── Settings ─────────────────────────────────────────────────────────────────

/// The settings of retrieval that are fixed when the store is opened.
#[derive(Debug)]
pub struct RagConfig {
    /// Directory of documents to ingest.
    pub data_dir: String,
    /// Path of the vector database.
    pub db_path: String,
    /// The local embedding model.
    pub embedding_model: String,
    /// Dimension of the embedding vectors.
    pub embedding_dim: usize,
    /// Target size of a chunk in characters.
    pub chunk_chars: usize,
    /// Overlap of consecutive chunks in characters.
    pub overlap_chars: usize,
}

/// What a [`RagConfig`] stands for.
#[verifier::ext_equal]
pub struct RagConfigView {
    pub data_dir: Seq<char>,
    pub db_path: Seq<char>,
    pub embedding_model: Seq<char>,
    pub embedding_dim: usize,
    pub chunk_chars: usize,
    pub overlap_chars: usize,
}

impl View for RagConfig {
    type V = RagConfigView;

    open spec fn view(&self) -> RagConfigView {
        RagConfigView {
            data_dir: self.data_dir@,
            db_path: self.db_path@,
            embedding_model: self.embedding_model@,
            embedding_dim: self.embedding_dim,
            chunk_chars: self.chunk_chars,
            overlap_chars: self.overlap_chars,
        }
    }
}

impl Clone for RagConfig {
    fn clone(&self) -> (r: RagConfig)
        ensures
            r@ == self@,
    {
        RagConfig {
            data_dir: self.data_dir.clone(),
            db_path: self.db_path.clone(),
            embedding_model: self.embedding_model.clone(),
            embedding_dim: self.embedding_dim,
            chunk_chars: self.chunk_chars,
            overlap_chars: self.overlap_chars,
        }
    }
}

/// The settings of retrieval that an application's settings give.
pub open spec fn rag_config(c: ConfigView) -> RagConfigView {
    RagConfigView {
        data_dir: c.data_dir,
        db_path: if trim(c.vector_db_path).len() == 0 {
            "data/rag_vectors.sqlite"@
        } else {
            c.vector_db_path
        },
        embedding_model: c.embedding_model,
        embedding_dim: if c.embedding_dim == 0 {
            384
        } else {
            c.embedding_dim
        },
        chunk_chars: 3500,
        overlap_chars: 600,
    }
}

impl RagConfig {
    /// Where the vector database lies unless the settings say otherwise.
    pub const DEFAULT_DB_PATH: &'static str = "data/rag_vectors.sqlite";

    /// The settings of retrieval that an application's settings give.
    pub fn from_app_config(cfg: &Config) -> (r: RagConfig)
        ensures
            r@ == rag_config(cfg@),
    {
        let path = trimmed(cfg.vector_db_path.as_str());
        RagConfig {
            data_dir: cfg.data_dir.clone(),
            db_path: if path.as_str().is_empty() {
                RagConfig::DEFAULT_DB_PATH.to_owned()
            } else {
                cfg.vector_db_path.clone()
            },
            embedding_model: cfg.embedding_model.clone(),
            embedding_dim: if cfg.embedding_dim == 0 {
                384
            } else {
                cfg.embedding_dim
            },
            chunk_chars: 3500,
            overlap_chars: 600,
        }
    }
}

// ── Ids and time ─────────────────────────────────────────────────────────────

/// The 64-bit FNV-1a hash of a sequence of bytes.
pub open spec fn fnv1a(bytes: Seq<u8>) -> u64
    decreases bytes.len(),
{
    if bytes.len() == 0 {
        0xcbf2_9ce4_8422_2325
    } else {
        (fnv1a(bytes.drop_last()) ^ (bytes.last() as u64)).wrapping_mul(0x0000_0100_0000_01b3)
    }
}

/// The 64-bit FNV-1a hash of a text.
pub fn hash_text(s: &str) -> (h: u64)
    ensures
        h == fnv1a(encode_utf8(s@)),
{
    let bytes = s.as_bytes();
    let mut h: u64 = 0xcbf2_9ce4_8422_2325;
    let mut i: usize = 0;
    proof {
        assert(bytes@.take(0) =~= Seq::<u8>::empty());
    }
    while i < bytes.len()
        invariant
            i <= bytes@.len(),
            h == fnv1a(bytes@.take(i as int)),
        decreases bytes@.len() - i,
    {
        proof {
            assert(bytes@.take(i + 1).drop_last() =~= bytes@.take(i as int));
        }
        h = (h ^ (bytes[i] as u64)).wrapping_mul(0x0000_0100_0000_01b3);
        i = i + 1;
    }
    proof {
        assert(bytes@.take(i as int) =~= bytes@);
    }
    h
}

/// The id that a text stands under.
pub open spec fn id_of(s: Seq<char>) -> Seq<char> {
    hex_fixed(fnv1a(encode_utf8(s)) as nat, 16)
}

/// The id that a text stands under: its FNV-1a hash in hexadecimal. The same on
/// every machine and in every run.
pub fn stable_id(input: &str) -> (r: String)
    ensures
        r@ == id_of(input@),
{
    let h = hash_text(input);
    let mut r = String::new();
    push_hex_fixed(&mut r, h, 16);
    proof {
        assert(Seq::<char>::empty() + id_of(input@) =~= id_of(input@));
    }
    r
}

/// The seconds that a reading of the clock stands for; 0 for one before the
/// epoch.
pub open spec fn clock_seconds(reading: Option<u64>) -> i64 {
    match reading {
        Some(s) => s as i64,
        None => 0,
    }
}

/// The seconds that a reading of the clock stands for.
pub fn seconds_of(reading: Option<u64>) -> (r: i64)
    ensures
        r == clock_seconds(reading),
{
    match reading {
        Some(s) => #[verifier::truncate]
        (s as i64),
        None => 0,
    }
}

/// The seconds between the epoch and now, from `SystemTime::elapsed`; nothing
/// if the clock stands before the epoch. Nothing is claimed of the reading.
#[verifier::external_body]
fn read_clock() -> (r: Option<u64>) {
    std::time::UNIX_EPOCH.elapsed().ok().map(|d| d.as_secs())
}

/// The current time in seconds since the epoch.
pub fn now_unix() -> (r: i64)
    ensures
        exists|reading: Option<u64>| r == #[trigger] clock_seconds(reading),
{
    let reading = read_clock();
    seconds_of(reading)
}

// ── Laws ─────────────────────────────────────────────────────────────────────

/// The name of a mode reads back as the mode.
pub proof fn mode_names_read_back(m: RetrievalMode)
    ensures
        mode_named(lowered(trim(mode_name(m)))) == m,
{
    reveal_strlit("keyword");
    reveal_strlit("bm25");
    reveal_strlit("lexical");
    reveal_strlit("vector");
    reveal_strlit("semantic");
    reveal_strlit("dense");
    reveal_strlit("hybrid");
    let s = mode_name(m);
    assert(trim(s) == s);
    assert(vstd::utf8::is_ascii_chars(s));
    assert(lowered(s) =~= s);
    if m == RetrievalMode::Hybrid {
        assert(s[0] == 'h');
    }
    if m == RetrievalMode::Vector {
        assert(s[0] == 'v');
    }
}

/// An id is sixteen hexadecimal digits in lower case.
pub proof fn ids_are_sixteen_hex_digits(s: Seq<char>)
    ensures
        id_of(s).len() == 16,
        forall|i: int| 0 <= i < 16 ==> is_hex_lower(#[trigger] id_of(s)[i]),
{
    lemma_hex_fixed(fnv1a(encode_utf8(s)) as nat, 16);
}

} // verus!
