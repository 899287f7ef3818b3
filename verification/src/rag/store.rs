//! The rules of the chunk store: what may be written, what a write replaces, and
//! how chunks and vectors are laid out in it.
//!
//! The store is a table of chunks beside a table of their vectors. The library
//! plans the statements of a write and says what they make of the table; whoever
//! holds the database runs them in one transaction.
use vstd::prelude::*;

use crate::numbers::{decimal, push_decimal, push_signed, signed_decimal, parse_signed, signed_value};
use crate::rag::score::Score;
use crate::rag::types::{ChunkView, Hit, HitSource, HitView, StoredChunk};
use crate::search::same_text;
use crate::text::{copy_opt, opt_text};

verus! {

// ── Errors ───────────────────────────────────────────────────────────────────

/// Why the store refuses a request.
#[derive(Debug, Clone, Copy, PartialEq, Eq, Structural)]
pub enum StoreError {
    /// A store of vectors without dimensions.
    ZeroDimension,
    /// The database was made for another dimension.
    StoredDimension { stored: i64, dim: usize },
    /// Not one vector for each chunk.
    CountMismatch { chunks: usize, vectors: usize },
    /// A vector of another dimension.
    VectorDimension { index: usize, got: usize, dim: usize },
    /// A query vector of another dimension.
    QueryDimension { got: usize, dim: usize },
}

/// What an error says.
pub open spec fn error_text(e: StoreError) -> Seq<char> {
    match e {
        StoreError::ZeroDimension => "embedding dimension must be greater than zero"@,
        StoreError::StoredDimension { stored, dim } => {
            "vector database dimension mismatch: stored index is "@ + signed_decimal(stored as int)
                + "-dim but the current embedding model is "@ + decimal(dim as nat)
                + "-dim. Run the rebuild command (POST /api/rebuild) to recreate the local index."@
        },
        StoreError::CountMismatch { chunks, vectors } => {
            "chunk/vector count mismatch: "@ + decimal(chunks as nat) + " chunks vs "@ + decimal(
                vectors as nat,
            ) + " vectors"@
        },
        StoreError::VectorDimension { index, got, dim } => {
            "vector "@ + decimal(index as nat) + " has "@ + decimal(got as nat)
                + " dims, expected "@ + decimal(dim as nat)
        },
        StoreError::QueryDimension { got, dim } => {
            "query vector has "@ + decimal(got as nat) + " dims, expected "@ + decimal(dim as nat)
        },
    }
}

impl StoreError {
    /// What the error says.
    pub fn message(&self) -> (r: String)
        ensures
            r@ == error_text(*self),
    {
        match *self {
            StoreError::ZeroDimension => "embedding dimension must be greater than zero".to_owned(),
            StoreError::StoredDimension { stored, dim } => {
                let mut r = "vector database dimension mismatch: stored index is ".to_owned();
                push_signed(&mut r, stored);
                r.push_str("-dim but the current embedding model is ");
                push_decimal(&mut r, dim as u64);
                r.push_str(
                    "-dim. Run the rebuild command (POST /api/rebuild) to recreate the local index.",
                );
                r
            },
            StoreError::CountMismatch { chunks, vectors } => {
                let mut r = "chunk/vector count mismatch: ".to_owned();
                push_decimal(&mut r, chunks as u64);
                r.push_str(" chunks vs ");
                push_decimal(&mut r, vectors as u64);
                r.push_str(" vectors");
                r
            },
            StoreError::VectorDimension { index, got, dim } => {
                let mut r = "vector ".to_owned();
                push_decimal(&mut r, index as u64);
                r.push_str(" has ");
                push_decimal(&mut r, got as u64);
                r.push_str(" dims, expected ");
                push_decimal(&mut r, dim as u64);
                r
            },
            StoreError::QueryDimension { got, dim } => {
                let mut r = "query vector has ".to_owned();
                push_decimal(&mut r, got as u64);
                r.push_str(" dims, expected ");
                push_decimal(&mut r, dim as u64);
                r
            },
        }
    }
}

// ── Opening ──────────────────────────────────────────────────────────────────

/// Whether a store of this dimension can be opened at all.
pub fn check_dimension(dim: usize) -> (r: Result<(), StoreError>)
    ensures
        match r {
            Ok(()) => dim > 0,
            Err(e) => dim == 0 && e == StoreError::ZeroDimension,
        },
{
    if dim == 0 {
        Err(StoreError::ZeroDimension)
    } else {
        Ok(())
    }
}

/// The dimension that a database was made for, by what its meta table holds.
pub open spec fn recorded_dim(recorded: Option<Seq<char>>) -> Option<i64> {
    match recorded {
        Some(s) => match signed_value(s) {
            Some(v) => if i64::MIN <= v <= i64::MAX {
                Some(v as i64)
            } else {
                None
            },
            None => None,
        },
        None => None,
    }
}

/// Checks the dimension that a database was made for, by what its meta table
/// holds. `Ok(true)` if the dimension has yet to be recorded.
pub fn check_recorded(recorded: &Option<String>, dim: usize) -> (r: Result<bool, StoreError>)
    ensures
        match recorded_dim(opt_text(*recorded)) {
            Some(d) => r == if d as usize != dim {
                Err::<bool, StoreError>(StoreError::StoredDimension { stored: d, dim: dim })
            } else {
                Ok(false)
            },
            None => r == Ok::<bool, StoreError>(true),
        },
{
    let stored: Option<i64> = match recorded {
        Some(s) => parse_signed(s.as_str()),
        None => None,
    };
    match stored {
        Some(d) => {
            let held: usize = #[verifier::truncate]
            (d as usize);
            if held != dim {
                Err(StoreError::StoredDimension { stored: d, dim: dim })
            } else {
                Ok(false)
            }
        },
        None => Ok(true),
    }
}

/// The text under which a dimension is recorded.
pub fn dimension_text(dim: usize) -> (r: String)
    ensures
        r@ == decimal(dim as nat),
{
    crate::numbers::decimal_text(dim as u64)
}

// ── Vectors ──────────────────────────────────────────────────────────────────

/// Byte `k` of a number, the lowest first.
pub open spec fn byte_of(bits: u32, k: int) -> u8 {
    if k == 0 {
        (bits % 256) as u8
    } else if k == 1 {
        (bits / 256 % 256) as u8
    } else if k == 2 {
        (bits / 65536 % 256) as u8
    } else {
        (bits / 16777216) as u8
    }
}

/// A vector as bytes: each number in four bytes, the lowest first.
pub open spec fn blob(v: Seq<Score>) -> Seq<u8> {
    Seq::new(4 * v.len(), |i: int| byte_of(v[i / 4].bits, i % 4))
}

/// A vector as bytes: each number in four bytes, the lowest first.
pub fn vec_to_blob(v: &[Score]) -> (r: Vec<u8>)
    ensures
        r@ == blob(v@),
{
    let mut r: Vec<u8> = Vec::new();
    let mut i: usize = 0;
    while i < v.len()
        invariant
            i <= v@.len(),
            r@ == blob(v@.take(i as int)),
        decreases v@.len() - i,
    {
        let bits = v[i].bits;
        let ghost before = r@;
        r.push((bits % 256) as u8);
        r.push((bits / 256 % 256) as u8);
        r.push((bits / 65536 % 256) as u8);
        r.push((bits / 16777216) as u8);
        proof {
            let next = v@.take(i + 1);
            assert forall|k: int| 0 <= k < r@.len() implies r@[k] == blob(next)[k] by {
                if k < 4 * i {
                    assert(before[k] == blob(v@.take(i as int))[k]);
                    assert(next[k / 4] == v@.take(i as int)[k / 4]);
                } else {
                    assert(k / 4 == i);
                }
            }
            assert(r@ =~= blob(next));
        }
        i = i + 1;
    }
    proof {
        assert(v@.take(i as int) =~= v@);
    }
    r
}

// ── Rows ─────────────────────────────────────────────────────────────────────

/// What `serde_json` makes of a JSON text when it reads it as a value and writes
/// that value again; nothing if it cannot read it.
pub uninterp spec fn json_rewritten(text: Seq<char>) -> Option<Seq<char>>;

/// `serde_json::from_str` into a `Value`, which is taken as the JSON text that it
/// displays as. The result depends on the text alone.
#[verifier::external_body]
fn rewrite_json(text: &str) -> (r: Option<String>)
    ensures
        opt_text(r) == json_rewritten(text@),
{
    serde_json::from_str::<serde_json::Value>(text).ok().map(|v| v.to_string())
}

/// A row of the table of chunks.
#[derive(Debug)]
pub struct ChunkRow {
    pub document_id: String,
    pub chunk_id: i64,
    pub source: String,
    pub text: String,
    pub normalized: String,
    pub char_count: i64,
    pub token_count: i64,
    pub created_at: i64,
    pub metadata: Option<String>,
}

/// What a [`ChunkRow`] stands for.
#[verifier::ext_equal]
pub struct ChunkRowView {
    pub document_id: Seq<char>,
    pub chunk_id: i64,
    pub source: Seq<char>,
    pub text: Seq<char>,
    pub normalized: Seq<char>,
    pub char_count: i64,
    pub token_count: i64,
    pub created_at: i64,
    pub metadata: Option<Seq<char>>,
}

impl View for ChunkRow {
    type V = ChunkRowView;

    open spec fn view(&self) -> ChunkRowView {
        ChunkRowView {
            document_id: self.document_id@,
            chunk_id: self.chunk_id,
            source: self.source@,
            text: self.text@,
            normalized: self.normalized@,
            char_count: self.char_count,
            token_count: self.token_count,
            created_at: self.created_at,
            metadata: opt_text(self.metadata),
        }
    }
}

/// The row that holds a chunk.
pub open spec fn row_view(c: ChunkView) -> ChunkRowView {
    ChunkRowView {
        document_id: c.document_id,
        chunk_id: c.chunk_id as i64,
        source: c.source,
        text: c.text,
        normalized: c.normalized,
        char_count: c.char_count as i64,
        token_count: c.token_count as i64,
        created_at: c.created_at,
        metadata: c.metadata,
    }
}

/// The chunk that a row holds, `metadata` being what is made of its metadata.
pub open spec fn chunk_in_row(row: ChunkRowView, metadata: Option<Seq<char>>) -> ChunkView {
    ChunkView {
        document_id: row.document_id,
        chunk_id: row.chunk_id as usize,
        source: row.source,
        text: row.text,
        normalized: row.normalized,
        char_count: row.char_count as usize,
        token_count: row.token_count as usize,
        created_at: row.created_at,
        metadata: metadata,
    }
}

/// What is made of the metadata of a row: a text that is no JSON is dropped.
pub open spec fn read_metadata(stored: Option<Seq<char>>) -> Option<Seq<char>> {
    match stored {
        Some(s) => json_rewritten(s),
        None => None,
    }
}

/// The row that holds a chunk.
pub fn row_of(c: &StoredChunk) -> (r: ChunkRow)
    ensures
        r@ == row_view(c@),
{
    ChunkRow {
        document_id: c.document_id.clone(),
        chunk_id: #[verifier::truncate]
        (c.chunk_id as i64),
        source: c.source.clone(),
        text: c.text.clone(),
        normalized: c.normalized.clone(),
        char_count: #[verifier::truncate]
        (c.char_count as i64),
        token_count: #[verifier::truncate]
        (c.token_count as i64),
        created_at: c.created_at,
        metadata: copy_opt(&c.metadata),
    }
}

/// The chunk that a row holds, given what is made of its metadata.
pub fn chunk_with(row: ChunkRow, metadata: Option<String>) -> (r: StoredChunk)
    ensures
        r@ == chunk_in_row(row@, opt_text(metadata)),
{
    StoredChunk {
        document_id: row.document_id,
        chunk_id: #[verifier::truncate]
        (row.chunk_id as usize),
        source: row.source,
        text: row.text,
        normalized: row.normalized,
        char_count: #[verifier::truncate]
        (row.char_count as usize),
        token_count: #[verifier::truncate]
        (row.token_count as usize),
        created_at: row.created_at,
        metadata: metadata,
    }
}

/// The chunk that a row holds. Metadata that is no JSON is dropped.
pub fn chunk_of(row: ChunkRow) -> (r: StoredChunk)
    ensures
        r@ == chunk_in_row(row@, read_metadata(row@.metadata)),
{
    let metadata = match &row.metadata {
        Some(s) => rewrite_json(s.as_str()),
        None => None,
    };
    chunk_with(row, metadata)
}

/// A hit of a vector search: the chunk of a row, and its similarity.
pub fn vector_hit(document_id: String, chunk_id: i64, source: String, text: String, score: Score) -> (r:
    Hit)
    ensures
        r@ == (HitView {
            text: text@,
            source: source@,
            score: score,
            document_id: document_id@,
            chunk_id: chunk_id as usize,
            retrieval: HitSource::Vector,
        }),
{
    Hit {
        text: text,
        source: source,
        score: score,
        document_id: document_id,
        chunk_id: #[verifier::truncate]
        (chunk_id as usize),
        retrieval: HitSource::Vector,
    }
}

// ── Searching ────────────────────────────────────────────────────────────────

/// Checks a vector search. `Ok(None)` if it finds nothing in any case, else how
/// many neighbours to ask for.
pub fn plan_search(query_len: usize, top_k: usize, count: usize, dim: usize) -> (r: Result<
    Option<i64>,
    StoreError,
>)
    ensures
        r == if query_len != dim {
            Err::<Option<i64>, StoreError>(StoreError::QueryDimension { got: query_len, dim: dim })
        } else if top_k == 0 || count == 0 {
            Ok(None)
        } else {
            Ok(Some(top_k as i64))
        },
{
    if query_len != dim {
        Err(StoreError::QueryDimension { got: query_len, dim: dim })
    } else if top_k == 0 || count == 0 {
        Ok(None)
    } else {
        let k: i64 = #[verifier::truncate]
        (top_k as i64);
        Ok(Some(k))
    }
}

// ── Writing ──────────────────────────────────────────────────────────────────

/// One statement of a write.
#[derive(Debug)]
pub enum StoreAction {
    /// Delete all chunks of a document, and their vectors.
    DeleteDocument(String),
    /// Insert chunk number `i` of the write, and its vector if there is one.
    Insert(usize),
}

/// What a [`StoreAction`] stands for.
#[verifier::ext_equal]
pub enum ActionView {
    DeleteDocument(Seq<char>),
    Insert(usize),
}

impl DeepView for StoreAction {
    type V = ActionView;

    open spec fn deep_view(&self) -> ActionView {
        match self {
            StoreAction::DeleteDocument(d) => ActionView::DeleteDocument(d@),
            StoreAction::Insert(i) => ActionView::Insert(*i),
        }
    }
}

/// Some chunk belongs to document `d`.
pub open spec fn has_document(chunks: Seq<ChunkView>, d: Seq<char>) -> bool {
    exists|i: int| 0 <= i < chunks.len() && (#[trigger] chunks[i]).document_id == d
}

/// One deletion for each document among the chunks, in the order in which they
/// are first seen.
pub open spec fn deletions(chunks: Seq<ChunkView>) -> Seq<ActionView>
    decreases chunks.len(),
{
    if chunks.len() == 0 {
        Seq::empty()
    } else {
        let d = chunks.last().document_id;
        if has_document(chunks.drop_last(), d) {
            deletions(chunks.drop_last())
        } else {
            deletions(chunks.drop_last()).push(ActionView::DeleteDocument(d))
        }
    }
}

/// The statements of a write: first the documents are deleted, then the chunks
/// are inserted.
pub open spec fn write_plan(chunks: Seq<ChunkView>) -> Seq<ActionView> {
    deletions(chunks) + Seq::new(chunks.len(), |i: int| ActionView::Insert(i as usize))
}

fn seen_before(chunks: &[StoredChunk], i: usize) -> (r: bool)
    requires
        i < chunks@.len(),
    ensures
        r == has_document(
            chunks.deep_view().take(i as int),
            chunks.deep_view()[i as int].document_id,
        ),
{
    let ghost head = chunks.deep_view().take(i as int);
    let ghost d = chunks.deep_view()[i as int].document_id;
    let mut j: usize = 0;
    while j < i
        invariant
            j <= i < chunks@.len(),
            head == chunks.deep_view().take(i as int),
            d == chunks@[i as int].document_id@,
            forall|k: int| 0 <= k < j ==> (#[trigger] head[k]).document_id != d,
        decreases i - j,
    {
        proof {
            assert(head[j as int] == chunks@[j as int]@);
        }
        if same_text(chunks[j].document_id.as_str(), chunks[i].document_id.as_str()) {
            return true;
        }
        j = j + 1;
    }
    false
}

/// The statements that fill an emptied table with `n` chunks: one insertion for
/// each, in order.
pub open spec fn replace_plan(n: nat) -> Seq<ActionView> {
    Seq::new(n, |i: int| ActionView::Insert(i as usize))
}

/// The statements that fill an emptied table with chunks.
pub fn plan_replace(chunks: &[StoredChunk]) -> (r: Vec<StoreAction>)
    ensures
        r.deep_view() == replace_plan(chunks@.len()),
{
    let mut r: Vec<StoreAction> = Vec::new();
    let mut i: usize = 0;
    while i < chunks.len()
        invariant
            i <= chunks@.len(),
            r@.len() == i,
            forall|k: int| 0 <= k < i ==> (#[trigger] r@[k]).deep_view() == ActionView::Insert(
                k as usize,
            ),
        decreases chunks@.len() - i,
    {
        r.push(StoreAction::Insert(i));
        i = i + 1;
    }
    proof {
        assert(r.deep_view() =~= replace_plan(chunks@.len()));
    }
    r
}

/// The statements that replace the documents of the chunks.
pub fn plan_write(chunks: &[StoredChunk]) -> (r: Vec<StoreAction>)
    ensures
        r.deep_view() == write_plan(chunks.deep_view()),
{
    let ghost all = chunks.deep_view();
    let mut r: Vec<StoreAction> = Vec::new();
    let mut i: usize = 0;
    proof {
        assert(all.take(0) =~= Seq::<ChunkView>::empty());
        assert(r.deep_view() =~= deletions(all.take(0)));
    }
    while i < chunks.len()
        invariant
            i <= chunks@.len(),
            all == chunks.deep_view(),
            all.len() == chunks@.len(),
            r.deep_view() == deletions(all.take(i as int)),
        decreases chunks@.len() - i,
    {
        let ghost before = r.deep_view();
        proof {
            let next = all.take(i + 1);
            assert(next.drop_last() =~= all.take(i as int));
            assert(next.last() == chunks@[i as int]@);
        }
        if !seen_before(chunks, i) {
            let d = chunks[i].document_id.clone();
            r.push(StoreAction::DeleteDocument(d));
            proof {
                assert(r.deep_view() =~= before.push(ActionView::DeleteDocument(d@)));
            }
        }
        i = i + 1;
    }
    proof {
        assert(all.take(i as int) =~= all);
    }
    let ghost dels = r.deep_view();
    let ghost ins = Seq::new(all.len(), |i: int| ActionView::Insert(i as usize));
    let mut j: usize = 0;
    proof {
        assert(r.deep_view() =~= dels + ins.take(0));
    }
    while j < chunks.len()
        invariant
            j <= chunks@.len(),
            all.len() == chunks@.len(),
            ins == Seq::new(all.len(), |i: int| ActionView::Insert(i as usize)),
            r.deep_view() == dels + ins.take(j as int),
        decreases chunks@.len() - j,
    {
        let ghost before = r.deep_view();
        r.push(StoreAction::Insert(j));
        proof {
            assert(r.deep_view() =~= before.push(ActionView::Insert(j)));
            assert(before.push(ActionView::Insert(j)) =~= dels + ins.take(j + 1));
        }
        j = j + 1;
    }
    proof {
        assert(ins.take(j as int) =~= ins);
    }
    r
}

/// The first vector whose length is not `dim`, or -1.
pub open spec fn first_misfit(lens: Seq<usize>, dim: usize) -> int
    decreases lens.len(),
{
    if lens.len() == 0 {
        -1
    } else if first_misfit(lens.drop_last(), dim) >= 0 {
        first_misfit(lens.drop_last(), dim)
    } else if lens.last() != dim {
        lens.len() - 1
    } else {
        -1
    }
}

/// What an upsert is answered: an error, or its statements.
pub open spec fn upsert_plan(chunks: Seq<ChunkView>, lens: Seq<usize>, dim: usize) -> Result<
    Seq<ActionView>,
    StoreError,
> {
    if chunks.len() != lens.len() {
        Err(
            StoreError::CountMismatch {
                chunks: chunks.len() as usize,
                vectors: lens.len() as usize,
            },
        )
    } else if first_misfit(lens, dim) >= 0 {
        Err(
            StoreError::VectorDimension {
                index: first_misfit(lens, dim) as usize,
                got: lens[first_misfit(lens, dim)],
                dim: dim,
            },
        )
    } else {
        Ok(write_plan(chunks))
    }
}

/// Plans the insertion of chunks with vectors of the given lengths. The
/// documents of the chunks are replaced. Nothing is planned unless there is one
/// vector for each chunk and all have the right dimension.
pub fn plan_upsert(chunks: &[StoredChunk], vector_lens: &[usize], dim: usize) -> (r: Result<
    Vec<StoreAction>,
    StoreError,
>)
    ensures
        match r {
            Ok(actions) => upsert_plan(chunks.deep_view(), vector_lens@, dim) == Ok::<
                Seq<ActionView>,
                StoreError,
            >(actions.deep_view()),
            Err(e) => upsert_plan(chunks.deep_view(), vector_lens@, dim) == Err::<
                Seq<ActionView>,
                StoreError,
            >(e),
        },
{
    if chunks.len() != vector_lens.len() {
        return Err(
            StoreError::CountMismatch { chunks: chunks.len(), vectors: vector_lens.len() },
        );
    }
    let mut i: usize = 0;
    proof {
        assert(vector_lens@.take(0) =~= Seq::<usize>::empty());
    }
    while i < vector_lens.len()
        invariant
            i <= vector_lens@.len(),
            chunks@.len() == vector_lens@.len(),
            first_misfit(vector_lens@.take(i as int), dim) == -1,
        decreases vector_lens@.len() - i,
    {
        proof {
            let next = vector_lens@.take(i + 1);
            assert(next.drop_last() =~= vector_lens@.take(i as int));
            assert(next.last() == vector_lens@[i as int]);
        }
        if vector_lens[i] != dim {
            proof {
                lemma_misfit_stays(vector_lens@, i + 1, dim);
            }
            return Err(
                StoreError::VectorDimension { index: i, got: vector_lens[i], dim: dim },
            );
        }
        i = i + 1;
    }
    proof {
        assert(vector_lens@.take(i as int) =~= vector_lens@);
    }
    Ok(plan_write(chunks))
}

proof fn lemma_misfit_stays(lens: Seq<usize>, n: int, dim: usize)
    requires
        0 <= n <= lens.len(),
        first_misfit(lens.take(n), dim) >= 0,
    ensures
        first_misfit(lens, dim) == first_misfit(lens.take(n), dim),
    decreases lens.len() - n,
{
    if n < lens.len() {
        assert(lens.take(n + 1).drop_last() =~= lens.take(n));
        lemma_misfit_stays(lens, n + 1, dim);
    } else {
        assert(lens.take(n) =~= lens);
    }
}

// ── What writes do to the table ──────────────────────────────────────────────

/// A row of the store: a chunk, and whether its vector is stored beside it.
#[verifier::ext_equal]
pub struct Stored {
    pub chunk: ChunkView,
    pub embedded: bool,
}

/// What one statement makes of the table.
pub open spec fn step(
    rows: Seq<Stored>,
    a: ActionView,
    chunks: Seq<ChunkView>,
    embedded: bool,
) -> Seq<Stored> {
    match a {
        ActionView::DeleteDocument(d) => rows.filter(|r: Stored| r.chunk.document_id != d),
        ActionView::Insert(i) => rows.push(Stored { chunk: chunks[i as int], embedded: embedded }),
    }
}

/// What statements make of the table, one after the other.
pub open spec fn run(
    rows: Seq<Stored>,
    actions: Seq<ActionView>,
    chunks: Seq<ChunkView>,
    embedded: bool,
) -> Seq<Stored>
    decreases actions.len(),
{
    if actions.len() == 0 {
        rows
    } else {
        step(run(rows, actions.drop_last(), chunks, embedded), actions.last(), chunks, embedded)
    }
}

/// The table with the documents of the chunks replaced by the chunks.
pub open spec fn replaced(rows: Seq<Stored>, chunks: Seq<ChunkView>, embedded: bool) -> Seq<Stored> {
    rows.filter(|r: Stored| !has_document(chunks, r.chunk.document_id)) + chunks.map_values(
        |c: ChunkView| Stored { chunk: c, embedded: embedded },
    )
}

/// The rows of a table that holds exactly these chunks.
pub open spec fn rows_of(chunks: Seq<ChunkView>, embedded: bool) -> Seq<Stored> {
    chunks.map_values(|c: ChunkView| Stored { chunk: c, embedded: embedded })
}

/// The table without the chunks of a source.
pub open spec fn rows_without(rows: Seq<Stored>, source: Seq<char>) -> Seq<Stored> {
    rows.filter(|r: Stored| r.chunk.source != source)
}

/// Filters that agree keep the same.
pub proof fn lemma_filter_same<A>(s: Seq<A>, p: spec_fn(A) -> bool, q: spec_fn(A) -> bool)
    requires
        forall|i: int| 0 <= i < s.len() ==> p(#[trigger] s[i]) == q(s[i]),
    ensures
        s.filter(p) == s.filter(q),
    decreases s.len(),
{
    reveal(Seq::filter);
    if s.len() > 0 {
        let d = s.drop_last();
        assert forall|i: int| 0 <= i < d.len() implies p(#[trigger] d[i]) == q(d[i]) by {
            assert(d[i] == s[i]);
        }
        lemma_filter_same(d, p, q);
        assert(p(s[s.len() - 1]) == q(s[s.len() - 1]));
    }
}

/// Filtering twice keeps what both filters keep.
pub proof fn lemma_filter_twice<A>(
    s: Seq<A>,
    p: spec_fn(A) -> bool,
    q: spec_fn(A) -> bool,
    both: spec_fn(A) -> bool,
)
    requires
        forall|i: int| 0 <= i < s.len() ==> both(#[trigger] s[i]) == (p(s[i]) && q(s[i])),
    ensures
        s.filter(p).filter(q) == s.filter(both),
    decreases s.len(),
{
    reveal(Seq::filter);
    if s.len() > 0 {
        let d = s.drop_last();
        assert forall|i: int| 0 <= i < d.len() implies both(#[trigger] d[i]) == (p(d[i]) && q(
            d[i],
        )) by {
            assert(d[i] == s[i]);
        }
        lemma_filter_twice(d, p, q, both);
        assert(both(s[s.len() - 1]) == (p(s[s.len() - 1]) && q(s[s.len() - 1])));
        if p(s.last()) {
            let f = d.filter(p).push(s.last());
            assert(f.drop_last() =~= d.filter(p));
            assert(f.last() == s.last());
        }
    }
}

proof fn lemma_run_deletions(
    rows: Seq<Stored>,
    head: Seq<ChunkView>,
    chunks: Seq<ChunkView>,
    embedded: bool,
)
    ensures
        run(rows, deletions(head), chunks, embedded) == rows.filter(
            |r: Stored| !has_document(head, r.chunk.document_id),
        ),
    decreases head.len(),
{
    let keep = |r: Stored| !has_document(head, r.chunk.document_id);
    if head.len() == 0 {
        lemma_filter_all(rows, keep);
    } else {
        let d = head.drop_last();
        let doc = head.last().document_id;
        let keep_d = |r: Stored| !has_document(d, r.chunk.document_id);
        lemma_run_deletions(rows, d, chunks, embedded);
        assert forall|x: Seq<char>| #[trigger] has_document(head, x) == (has_document(d, x) || x == doc) by {
            if has_document(d, x) {
                let k = choose|k: int| 0 <= k < d.len() && (#[trigger] d[k]).document_id == x;
                assert(head[k].document_id == x);
            }
            if x == doc {
                assert(head[head.len() - 1].document_id == x);
            }
            if has_document(head, x) && x != doc {
                let k = choose|k: int| 0 <= k < head.len() && (#[trigger] head[k]).document_id == x;
                assert(d[k].document_id == x);
            }
        }
        if has_document(d, doc) {
            lemma_filter_same(rows, keep_d, keep);
        } else {
            let a = deletions(head);
            assert(a.drop_last() =~= deletions(d));
            let other = |r: Stored| r.chunk.document_id != doc;
            lemma_filter_twice(rows, keep_d, other, keep);
        }
    }
}

/// A filter that keeps every element changes nothing.
pub proof fn lemma_filter_all<A>(s: Seq<A>, p: spec_fn(A) -> bool)
    requires
        forall|i: int| 0 <= i < s.len() ==> p(#[trigger] s[i]),
    ensures
        s.filter(p) == s,
    decreases s.len(),
{
    reveal(Seq::filter);
    if s.len() > 0 {
        let d = s.drop_last();
        assert forall|i: int| 0 <= i < d.len() implies p(#[trigger] d[i]) by {
            assert(d[i] == s[i]);
        }
        lemma_filter_all(d, p);
        assert(p(s[s.len() - 1]));
        assert(d.push(s.last()) =~= s);
    }
}

proof fn lemma_run_inserts(
    rows: Seq<Stored>,
    first: Seq<ActionView>,
    chunks: Seq<ChunkView>,
    n: int,
    embedded: bool,
)
    requires
        0 <= n <= chunks.len() <= usize::MAX,
    ensures
        run(
            rows,
            first + Seq::new(n as nat, |i: int| ActionView::Insert(i as usize)),
            chunks,
            embedded,
        ) == run(rows, first, chunks, embedded) + chunks.take(n).map_values(
            |c: ChunkView| Stored { chunk: c, embedded: embedded },
        ),
    decreases n,
{
    let f = |c: ChunkView| Stored { chunk: c, embedded: embedded };
    let ins = Seq::new(n as nat, |i: int| ActionView::Insert(i as usize));
    let base = run(rows, first, chunks, embedded);
    if n == 0 {
        assert(first + ins =~= first);
        assert(base + chunks.take(0).map_values(f) =~= base);
    } else {
        let before = Seq::new((n - 1) as nat, |i: int| ActionView::Insert(i as usize));
        lemma_run_inserts(rows, first, chunks, n - 1, embedded);
        assert((first + ins).drop_last() =~= first + before);
        assert((first + ins).last() == ActionView::Insert((n - 1) as usize));
        assert((base + chunks.take(n - 1).map_values(f)).push(f(chunks[n - 1])) =~= base
            + chunks.take(n).map_values(f));
    }
}

/// Filling an emptied table with chunks leaves exactly these chunks in it, in
/// order.
pub proof fn replacing_stores_the_chunks(chunks: Seq<ChunkView>, embedded: bool)
    requires
        chunks.len() <= usize::MAX,
    ensures
        run(Seq::empty(), replace_plan(chunks.len()), chunks, embedded) == rows_of(
            chunks,
            embedded,
        ),
{
    let none = Seq::<ActionView>::empty();
    let rows = Seq::<Stored>::empty();
    lemma_run_inserts(rows, none, chunks, chunks.len() as int, embedded);
    assert(none + replace_plan(chunks.len()) =~= replace_plan(chunks.len()));
    assert(chunks.take(chunks.len() as int) =~= chunks);
    assert(rows + rows_of(chunks, embedded) =~= rows_of(chunks, embedded));
}

/// A write replaces the documents of its chunks: whatever the table held of them
/// is gone, the chunks are there, and the rest is as before.
pub proof fn writing_replaces(rows: Seq<Stored>, chunks: Seq<ChunkView>, embedded: bool)
    requires
        chunks.len() <= usize::MAX,
    ensures
        run(rows, write_plan(chunks), chunks, embedded) == replaced(rows, chunks, embedded),
{
    lemma_run_deletions(rows, chunks, chunks, embedded);
    lemma_run_inserts(rows, deletions(chunks), chunks, chunks.len() as int, embedded);
    assert(chunks.take(chunks.len() as int) =~= chunks);
}

/// A filter that keeps no element leaves nothing.
pub proof fn lemma_filter_none<A>(s: Seq<A>, p: spec_fn(A) -> bool)
    requires
        forall|i: int| 0 <= i < s.len() ==> !p(#[trigger] s[i]),
    ensures
        s.filter(p).len() == 0,
    decreases s.len(),
{
    reveal(Seq::filter);
    if s.len() > 0 {
        let d = s.drop_last();
        assert forall|i: int| 0 <= i < d.len() implies !p(#[trigger] d[i]) by {
            assert(d[i] == s[i]);
        }
        lemma_filter_none(d, p);
        assert(!p(s[s.len() - 1]));
    }
}

/// Writing the same chunks again changes nothing: indexing a document twice
/// leaves it there once.
pub proof fn writing_is_idempotent(
    rows: Seq<Stored>,
    chunks: Seq<ChunkView>,
    first: bool,
    second: bool,
)
    ensures
        replaced(replaced(rows, chunks, first), chunks, second) == replaced(rows, chunks, second),
        replaced(rows, chunks, first).len() == rows.filter(
            |r: Stored| !has_document(chunks, r.chunk.document_id),
        ).len() + chunks.len(),
{
    let keep = |r: Stored| !has_document(chunks, r.chunk.document_id);
    let f = |c: ChunkView| Stored { chunk: c, embedded: first };
    let kept = rows.filter(keep);
    let added = chunks.map_values(f);
    Seq::filter_distributes_over_add(kept, added, keep);
    assert forall|i: int| 0 <= i < kept.len() implies keep(#[trigger] kept[i]) by {
        rows.lemma_filter_pred(keep, i);
    }
    lemma_filter_all(kept, keep);
    assert forall|i: int| 0 <= i < added.len() implies !keep(#[trigger] added[i]) by {
        assert(chunks[i].document_id == added[i].chunk.document_id);
    }
    lemma_filter_none(added, keep);
    assert(kept + added.filter(keep) =~= kept);
}

/// Chunks read back as they were written, as long as they carry no metadata.
pub proof fn rows_read_back(c: ChunkView)
    requires
        c.metadata is None,
    ensures
        chunk_in_row(row_view(c), read_metadata(row_view(c).metadata)) == c,
{
    lemma_cast_back(c.chunk_id);
    lemma_cast_back(c.char_count);
    lemma_cast_back(c.token_count);
}

proof fn lemma_cast_back(n: usize)
    ensures
        (n as i64) as usize == n,
{
    let m = n as u64;
    assert((m as i64) as u64 == m) by (bit_vector);
    if n > i64::MAX {
        assert(usize::MAX > 0xffff_ffff);
        assert(usize::BITS == 64);
    }
}

/// A number is the sum of its bytes.
pub proof fn lemma_bytes(x: u32)
    ensures
        x == byte_of(x, 0) + 256 * byte_of(x, 1) + 65536 * byte_of(x, 2) + 16777216 * byte_of(x, 3),
{
    assert(x / 65536 == (x / 256) / 256);
    assert(x / 16777216 == (x / 65536) / 256);
}

/// Vectors of different numbers have different bytes.
pub proof fn blobs_tell_vectors_apart(v: Seq<Score>, w: Seq<Score>)
    requires
        blob(v) == blob(w),
    ensures
        v == w,
{
    assert(blob(v).len() == 4 * v.len());
    assert(blob(w).len() == 4 * w.len());
    assert forall|i: int| 0 <= i < v.len() implies v[i] == w[i] by {
        let x = v[i].bits;
        let y = w[i].bits;
        assert(blob(v)[4 * i] == byte_of(x, 0));
        assert(blob(v)[4 * i + 1] == byte_of(x, 1));
        assert(blob(v)[4 * i + 2] == byte_of(x, 2));
        assert(blob(v)[4 * i + 3] == byte_of(x, 3));
        assert(blob(w)[4 * i] == byte_of(y, 0));
        assert(blob(w)[4 * i + 1] == byte_of(y, 1));
        assert(blob(w)[4 * i + 2] == byte_of(y, 2));
        assert(blob(w)[4 * i + 3] == byte_of(y, 3));
        lemma_bytes(x);
        lemma_bytes(y);
    }
    assert(v =~= w);
}

} // verus!
