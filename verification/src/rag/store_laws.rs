//! What rows, vectors and ids are made of, and which writes and settings are
//! accepted.
use vstd::prelude::*;
use vstd::utf8::encode_utf8;

use crate::config::ConfigView;
use crate::numbers::{decimal, hex_fixed, signed_decimal, signed_value};
use crate::order::sorted_by;
use crate::rag::chunk::document_chunks;
use crate::rag::embed::{
    embed_error_text, in_bucket, model_dim, model_named, tokens, weights, EmbedError, LocalModel,
};
use crate::rag::score::Score;
use crate::rag::store::{
    blob, byte_of, chunk_in_row, error_text, first_misfit, json_rewritten, lemma_bytes, read_metadata,
    recorded_dim, row_view, upsert_plan, write_plan, ActionView, ChunkRowView, StoreError,
};
use crate::rag::system::{
    chunk_order, configured_mode, configured_top_k, dimension_for, document_order, file_kind,
    ingested, rag_error_text, uploads_of, DocumentView, FileKind, Ingest, RagError, RagErrorView,
    RagView,
};
use crate::rag::types::{
    clock_seconds, fnv1a, id_of, mode_named, rag_config, ChunkView, RagConfigView, RetrievalMode,
};
use crate::search::{byte_len, lemma_text_before_total, lemma_text_before_trans, text_before};
use crate::text::{all_white, alnum_mask, lemma_trim_empty, lowered, runs, trim, white};

verus! {

// ── Rows ─────────────────────────────────────────────────────────────────────

/// A row holds each part of its chunk in its own column, and a chunk is read from
/// the columns it was written to.
pub proof fn rows_hold_the_parts_of_a_chunk(
    c: ChunkView,
    row: ChunkRowView,
    metadata: Option<Seq<char>>,
)
    ensures
        row_view(c).document_id == c.document_id,
        row_view(c).source == c.source,
        row_view(c).text == c.text,
        row_view(c).normalized == c.normalized,
        row_view(c).created_at == c.created_at,
        row_view(c).metadata == c.metadata,
        c.chunk_id <= i64::MAX ==> row_view(c).chunk_id == c.chunk_id,
        c.char_count <= i64::MAX ==> row_view(c).char_count == c.char_count,
        c.token_count <= i64::MAX ==> row_view(c).token_count == c.token_count,
        chunk_in_row(row, metadata).document_id == row.document_id,
        chunk_in_row(row, metadata).source == row.source,
        chunk_in_row(row, metadata).text == row.text,
        chunk_in_row(row, metadata).normalized == row.normalized,
        chunk_in_row(row, metadata).created_at == row.created_at,
        chunk_in_row(row, metadata).metadata == metadata,
        0 <= row.chunk_id <= usize::MAX ==> chunk_in_row(row, metadata).chunk_id == row.chunk_id,
        0 <= row.char_count <= usize::MAX ==> chunk_in_row(row, metadata).char_count
            == row.char_count,
        0 <= row.token_count <= usize::MAX ==> chunk_in_row(row, metadata).token_count
            == row.token_count,
{
}

/// Metadata is read as JSON where there is any.
pub proof fn metadata_is_read_as_json(stored: Option<Seq<char>>)
    ensures
        stored is None ==> read_metadata(stored) is None,
        stored is Some ==> read_metadata(stored) == json_rewritten(stored.unwrap()),
{
}

/// A vector is stored in four bytes for each number, of which the first counts
/// once, and each next one 256 times as much as the one before.
pub proof fn numbers_are_stored_lowest_byte_first(v: Seq<Score>, i: int)
    requires
        0 <= i < v.len(),
    ensures
        blob(v).len() == 4 * v.len(),
        v[i].bits == blob(v)[4 * i] + 256 * blob(v)[4 * i + 1] + 256 * 256 * blob(v)[4 * i + 2]
            + 256 * 256 * 256 * blob(v)[4 * i + 3],
{
    let x = v[i].bits;
    assert(blob(v)[4 * i] == byte_of(x, 0));
    assert(blob(v)[4 * i + 1] == byte_of(x, 1));
    assert(blob(v)[4 * i + 2] == byte_of(x, 2));
    assert(blob(v)[4 * i + 3] == byte_of(x, 3));
    lemma_bytes(x);
}

/// The dimension that a database records is the whole number that it holds, if it
/// holds one that fits.
pub proof fn recorded_dimensions_are_numbers(recorded: Option<Seq<char>>)
    ensures
        recorded is None ==> recorded_dim(recorded) is None,
        recorded is Some && signed_value(recorded.unwrap()) is None ==> recorded_dim(
            recorded,
        ) is None,
        recorded is Some && signed_value(recorded.unwrap()) is Some ==> {
            let n = signed_value(recorded.unwrap()).unwrap();
            if i64::MIN <= n <= i64::MAX {
                recorded_dim(recorded) is Some && recorded_dim(recorded).unwrap() == n
            } else {
                recorded_dim(recorded) is None
            }
        },
{
}

proof fn lemma_first_misfit(lens: Seq<usize>, dim: usize, i: int)
    requires
        0 <= i <= lens.len(),
        forall|k: int| 0 <= k < i ==> #[trigger] lens[k] == dim,
        i < lens.len() ==> lens[i] != dim,
    ensures
        i < lens.len() ==> first_misfit(lens, dim) == i,
        i == lens.len() ==> first_misfit(lens, dim) == -1,
    decreases lens.len(),
{
    if lens.len() > 0 {
        let d = lens.drop_last();
        if i < d.len() {
            lemma_first_misfit(d, dim, i);
        } else {
            lemma_first_misfit(d, dim, d.len() as int);
            if i == lens.len() {
                assert(lens[lens.len() - 1] == dim);
            }
        }
    }
}

/// A write with vectors is refused if there are not as many vectors as chunks, or
/// else if a vector has the wrong length, and then the first of them is named;
/// otherwise it is the write of the chunks.
pub proof fn only_fitting_vectors_are_written(
    chunks: Seq<ChunkView>,
    lens: Seq<usize>,
    dim: usize,
    i: int,
)
    requires
        0 <= i <= lens.len() <= usize::MAX,
        chunks.len() <= usize::MAX,
        forall|k: int| 0 <= k < i ==> #[trigger] lens[k] == dim,
        i < lens.len() ==> lens[i] != dim,
    ensures
        chunks.len() != lens.len() ==> upsert_plan(chunks, lens, dim) == Err::<
            Seq<ActionView>,
            StoreError,
        >(
            StoreError::CountMismatch {
                chunks: chunks.len() as usize,
                vectors: lens.len() as usize,
            },
        ),
        chunks.len() == lens.len() && i < lens.len() ==> upsert_plan(chunks, lens, dim) == Err::<
            Seq<ActionView>,
            StoreError,
        >(StoreError::VectorDimension { index: i as usize, got: lens[i], dim: dim }),
        chunks.len() == lens.len() && i == lens.len() ==> upsert_plan(chunks, lens, dim) == Ok::<
            Seq<ActionView>,
            StoreError,
        >(write_plan(chunks)),
{
    lemma_first_misfit(lens, dim, i);
}

// ── Ids ──────────────────────────────────────────────────────────────────────

/// The id of a text is the FNV-1a hash of its bytes in sixteen digits: from a fixed
/// start each byte is mixed in and the whole multiplied by a fixed prime.
pub proof fn ids_are_fnv1a_hashes(s: Seq<char>, bytes: Seq<u8>, b: u8)
    ensures
        fnv1a(Seq::empty()) == 0xcbf2_9ce4_8422_2325u64,
        fnv1a(bytes.push(b)) == (fnv1a(bytes) ^ (b as u64)).wrapping_mul(0x0100_0000_01b3u64),
        id_of(s) == hex_fixed(fnv1a(encode_utf8(s)) as nat, 16),
{
    assert(bytes.push(b).drop_last() =~= bytes);
}

// ── Settings ─────────────────────────────────────────────────────────────────

/// Six names stand for keyword or vector search; every other name stands for
/// hybrid search. Settings are read trimmed and in lower case.
pub proof fn modes_are_told_by_name(name: Seq<char>, c: ConfigView)
    ensures
        mode_named(name) == RetrievalMode::Keyword <==> name == "keyword"@ || name == "bm25"@
            || name == "lexical"@,
        mode_named(name) == RetrievalMode::Vector <==> name == "vector"@ || name == "semantic"@
            || name == "dense"@,
        configured_mode(c) == mode_named(lowered(trim(c.retrieval_mode))),
{
    reveal_strlit("keyword");
    reveal_strlit("bm25");
    reveal_strlit("lexical");
    reveal_strlit("vector");
    reveal_strlit("semantic");
    reveal_strlit("dense");
    assert("keyword"@[0] == 'k' && "bm25"@[0] == 'b' && "lexical"@[0] == 'l');
    assert("vector"@[0] == 'v' && "semantic"@[0] == 's' && "dense"@[0] == 'd');
}

/// The settings ask for at least one chunk, and for as many as they say above
/// that.
pub proof fn at_least_one_chunk_is_asked_for(c: ConfigView)
    ensures
        configured_top_k(c) >= 1,
        c.top_k >= 1 ==> configured_top_k(c) == c.top_k,
        c.top_k == 0 ==> configured_top_k(c) == 1,
{
}

/// Retrieval takes its settings from the application's; where those name no
/// database or no dimension it has its own, and its chunks are of 3500 characters
/// with 600 shared.
pub proof fn retrieval_takes_the_settings(c: ConfigView)
    ensures
        rag_config(c).data_dir == c.data_dir,
        rag_config(c).embedding_model == c.embedding_model,
        all_white(c.vector_db_path) ==> rag_config(c).db_path == "data/rag_vectors.sqlite"@,
        !all_white(c.vector_db_path) ==> rag_config(c).db_path == c.vector_db_path,
        c.embedding_dim == 0 ==> rag_config(c).embedding_dim == 384,
        c.embedding_dim > 0 ==> rag_config(c).embedding_dim == c.embedding_dim,
        rag_config(c).chunk_chars == 3500,
        rag_config(c).overlap_chars == 600,
{
    lemma_trim_empty(c.vector_db_path);
}

/// The store has the dimension of the model that is loaded, or the configured one.
pub proof fn the_model_sets_the_dimension(cfg: RagConfigView, embedder: Option<usize>)
    ensures
        embedder is Some ==> dimension_for(cfg, embedder) == embedder.unwrap(),
        embedder is None ==> dimension_for(cfg, embedder) == cfg.embedding_dim,
{
}

/// Errors of retrieval name what they are about.
pub proof fn retrieval_errors_are_named(source: Seq<char>)
    ensures
        rag_error_text(RagErrorView::NoReadableText(source)) == "No readable text found in '"@
            + source + "'."@,
        rag_error_text(RagErrorView::NoDocuments)
            == "No documents are loaded yet. Add a document first."@,
{
}

/// Databases are told by their extension or by the name they start with; of the
/// other files those with one of four extensions are documents.
pub proof fn files_are_told_by_name(name: Seq<char>, ext: Seq<char>)
    ensures
        file_kind(name, ext) == FileKind::Database <==> ext == "sqlite"@ || ext == "db"@ || ext
            == "sqlite-wal"@ || ext == "sqlite-shm"@ || "rag_vectors"@.is_prefix_of(name),
        file_kind(name, ext) == FileKind::Document <==> file_kind(name, ext) != FileKind::Database
            && (ext == "txt"@ || ext == "md"@ || ext == "markdown"@ || ext == "text"@),
{
    crate::search_laws::containing_is_having_a_part(name, "rag_vectors"@);
}

// ── Order ────────────────────────────────────────────────────────────────────

/// Uploads are stored again by source, and by number within a source.
pub proof fn uploads_are_in_order(snapshot: Seq<ChunkView>, fresh: Seq<Seq<char>>, i: int, j: int)
    requires
        0 <= i < j < uploads_of(snapshot, fresh).len(),
    ensures
        ({
            let a = uploads_of(snapshot, fresh)[i];
            let b = uploads_of(snapshot, fresh)[j];
            &&& text_before(a.source, b.source) || a.source == b.source && a.chunk_id
                <= b.chunk_id
            &&& !fresh.contains(a.source)
            &&& snapshot.contains(a)
        }),
{
    broadcast use vstd::seq_lib::group_to_multiset_ensures;
    broadcast use vstd::multiset::group_multiset_axioms;

    crate::rag::laws::uploads_are_the_rest(snapshot, fresh);
    let r = uploads_of(snapshot, fresh);
    assert(chunk_order()(r[i], r[j]));
    assert(r.contains(r[i]));
    assert(r.to_multiset().count(r[i]) > 0);
    assert(snapshot.to_multiset().count(r[i]) > 0);
}

/// Documents are indexed in the order of their sources, each as often as it was
/// read.
pub proof fn documents_are_in_order(docs: Seq<DocumentView>)
    ensures
        sorted_by(docs, document_order()).to_multiset() == docs.to_multiset(),
        forall|i: int, j: int|
            0 <= i < j < sorted_by(docs, document_order()).len() ==> !text_before(
                (#[trigger] sorted_by(docs, document_order())[j]).source,
                (#[trigger] sorted_by(docs, document_order())[i]).source,
            ),
{
    let le = document_order();
    assert forall|a: DocumentView, b: DocumentView| #[trigger] le(a, b) || le(b, a) by {
        lemma_text_before_total(a.source, b.source);
    }
    assert forall|a: DocumentView, b: DocumentView, c: DocumentView| #[trigger]
        le(a, b) && #[trigger] le(b, c) implies le(a, c) by {
        lemma_text_before_total(a.source, b.source);
        lemma_text_before_total(b.source, c.source);
        if text_before(c.source, a.source) && text_before(a.source, b.source) {
            lemma_text_before_trans(c.source, a.source, b.source);
        }
    }
    crate::order::sorting_orders_and_keeps(docs, le);
    let r = sorted_by(docs, le);
    assert forall|i: int, j: int| 0 <= i < j < r.len() implies !text_before(
        (#[trigger] r[j]).source,
        (#[trigger] r[i]).source,
    ) by {
        assert(le(r[i], r[j]));
    }
}

// ── Embeddings ───────────────────────────────────────────────────────────────

proof fn lemma_in_bucket(ts: Seq<Seq<char>>, dim: usize, b: int)
    ensures
        in_bucket(ts, dim, b) == ts.filter(
            |t: Seq<char>| (fnv1a(encode_utf8(t)) as int) % (dim as int) == b,
        ).len(),
    decreases ts.len(),
{
    reveal(Seq::filter);
    if ts.len() > 0 {
        lemma_in_bucket(ts.drop_last(), dim, b);
    }
}

/// The mock embedding counts in each bucket the words of at least two bytes whose
/// hash falls into it; a text without any has a one in the first bucket.
pub proof fn words_are_counted_by_hash(text: Seq<char>, dim: usize, b: int)
    requires
        0 <= b < dim,
    ensures
        tokens(text) == runs(lowered(text), alnum_mask(lowered(text))).filter(
            |w: Seq<char>| byte_len(w) >= 2,
        ),
        weights(tokens(text), dim).len() == dim,
        tokens(text).len() > 0 || b > 0 ==> weights(tokens(text), dim)[b] == tokens(text).filter(
            |t: Seq<char>| (fnv1a(encode_utf8(t)) as int) % (dim as int) == b,
        ).len(),
        tokens(text).len() == 0 ==> weights(tokens(text), dim)[0] == 1,
{
    lemma_in_bucket(tokens(text), dim, b);
}

/// The names of the local models, and no others, are known; one model has 768
/// dimensions and the others 384.
pub proof fn models_are_told_by_name(name: Seq<char>)
    ensures
        model_named(name) == Some(LocalModel::AllMiniLML6V2) <==> name == "all-minilm-l6-v2"@
            || name == "minilm"@ || name == "minilm-l6"@ || name == "allminilml6v2"@ || name
            == ""@,
        name == "bge-small-en-v1.5"@ || name == "bge-small"@ || name == "bgesmallenv15"@
            ==> model_named(name) is Some,
        name == "bge-base-en-v1.5"@ || name == "bge-base"@ || name == "bgebaseenv15"@
            ==> model_named(name) is Some,
        name == "all-minilm-l12-v2"@ || name == "minilm-l12"@ ==> model_named(name) is Some,
        model_named(name) == Some(LocalModel::BGESmallENV15) ==> name == "bge-small-en-v1.5"@
            || name == "bge-small"@ || name == "bgesmallenv15"@,
        model_named(name) == Some(LocalModel::BGEBaseENV15) ==> name == "bge-base-en-v1.5"@
            || name == "bge-base"@ || name == "bgebaseenv15"@,
        model_named(name) == Some(LocalModel::AllMiniLML12V2) ==> name == "all-minilm-l12-v2"@
            || name == "minilm-l12"@,
        model_dim(LocalModel::AllMiniLML6V2) == 384,
        model_dim(LocalModel::BGESmallENV15) == 384,
        model_dim(LocalModel::BGEBaseENV15) == 768,
        model_dim(LocalModel::AllMiniLML12V2) == 384,
{
}

// ── Errors ───────────────────────────────────────────────────────────────────

/// An error of the store tells both of the numbers that do not fit.
pub proof fn store_errors_are_told(
    stored: i64,
    dim: usize,
    chunks: usize,
    vectors: usize,
    index: usize,
    got: usize,
)
    ensures
        error_text(StoreError::StoredDimension { stored, dim })
            == "vector database dimension mismatch: stored index is "@ + signed_decimal(
            stored as int,
        ) + "-dim but the current embedding model is "@ + decimal(dim as nat)
            + "-dim. Run the rebuild command (POST /api/rebuild) to recreate the local index."@,
        error_text(StoreError::CountMismatch { chunks, vectors })
            == "chunk/vector count mismatch: "@ + decimal(chunks as nat) + " chunks vs "@
            + decimal(vectors as nat) + " vectors"@,
        error_text(StoreError::VectorDimension { index, got, dim }) == "vector "@ + decimal(
            index as nat,
        ) + " has "@ + decimal(got as nat) + " dims, expected "@ + decimal(dim as nat),
        error_text(StoreError::QueryDimension { got, dim }) == "query vector has "@ + decimal(
            got as nat,
        ) + " dims, expected "@ + decimal(dim as nat),
        error_text(StoreError::ZeroDimension) == "embedding dimension must be greater than zero"@,
{
}

/// An error of the embedding model tells what came and what was expected.
pub proof fn embedding_errors_are_told(got: usize, dim: usize)
    ensures
        embed_error_text(EmbedError::Dimension { got, dim })
            == "embedding dimension mismatch: model returned "@ + decimal(got as nat)
            + " dims, expected "@ + decimal(dim as nat),
        embed_error_text(EmbedError::NoModel) == "no embedding model is available"@,
        embed_error_text(EmbedError::NoVector) == "embedding provider returned no vector"@,
        embed_error_text(EmbedError::NoQueryVector) == "query embedding produced no vector"@,
{
}

/// The time is the reading of the clock in seconds, and 0 without one.
pub proof fn time_is_read_from_the_clock(reading: Option<u64>)
    ensures
        reading is Some && reading.unwrap() <= i64::MAX ==> clock_seconds(reading)
            == reading.unwrap(),
        reading is None ==> clock_seconds(reading) == 0,
{
}

// ── Ingesting ────────────────────────────────────────────────────────────────

/// A document is ingested if and only if it holds more than whitespace; then all
/// its chunks are, and they are embedded if there is a model. Any other is refused
/// by its name.
pub proof fn documents_with_text_are_ingested(
    s: RagView,
    source: Seq<char>,
    content: Seq<char>,
    now: i64,
    r: Result<Ingest, RagError>,
)
    requires
        ingested(s, source, content, now, r),
    ensures
        r is Ok <==> exists|i: int| 0 <= i < content.len() && !white(#[trigger] content[i]),
        r is Ok ==> r->Ok_0.chunks.deep_view() == document_chunks(s.cfg, source, content, now),
        r is Ok ==> r->Ok_0.embed == s.embedder,
        r is Err ==> r->Err_0@ == RagErrorView::NoReadableText(source),
{
}

} // verus!
