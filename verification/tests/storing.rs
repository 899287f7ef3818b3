//! The rules of the chunk store, carried out on SQLite.
use agent_toolkit::rag::embed::MockEmbeddingProvider;
use agent_toolkit::rag::score::Score;
use agent_toolkit::rag::store::{
    check_dimension, check_recorded, chunk_of, chunk_with, dimension_text, plan_search,
    plan_upsert, plan_write, row_of, vec_to_blob, vector_hit, ChunkRow, StoreAction, StoreError,
};
use agent_toolkit::rag::types::{now_unix, stable_id, Hit, HitSource, StoredChunk};
use rusqlite::Connection;

/// The store in a SQLite database in memory, which lives as long as a connection
/// to it is open.
struct Table {
    conn: Connection,
    dim: usize,
}

impl Table {
    fn open(name: &str, dim: usize) -> Result<Table, StoreError> {
        check_dimension(dim)?;
        let conn = Connection::open(format!("file:{name}?mode=memory&cache=shared")).unwrap();
        conn.execute_batch(
            "CREATE TABLE IF NOT EXISTS meta(key TEXT PRIMARY KEY, value TEXT);
             CREATE TABLE IF NOT EXISTS chunks(
                rowid INTEGER PRIMARY KEY, document_id TEXT NOT NULL, chunk_id INTEGER NOT NULL,
                source TEXT NOT NULL, text TEXT NOT NULL, normalized TEXT NOT NULL,
                char_count INTEGER NOT NULL, token_count INTEGER NOT NULL,
                created_at INTEGER NOT NULL, metadata TEXT);
             CREATE TABLE IF NOT EXISTS vec_chunks(rowid INTEGER PRIMARY KEY, embedding BLOB);",
        )
        .unwrap();
        let recorded: Option<String> = conn
            .query_row("SELECT value FROM meta WHERE key = 'embedding_dim'", (), |r| r.get(0))
            .ok();
        if check_recorded(&recorded, dim)? {
            conn.execute(
                "INSERT OR REPLACE INTO meta(key, value) VALUES ('embedding_dim', ?1)",
                (dimension_text(dim),),
            )
            .unwrap();
        }
        Ok(Table { conn, dim })
    }

    fn run(&mut self, actions: Vec<StoreAction>, chunks: &[StoredChunk], vectors: &[Vec<f32>]) {
        let tx = self.conn.transaction().unwrap();
        for a in actions {
            match a {
                StoreAction::DeleteDocument(d) => {
                    tx.execute(
                        "DELETE FROM vec_chunks WHERE rowid IN \
                         (SELECT rowid FROM chunks WHERE document_id = ?1)",
                        (&d,),
                    )
                    .unwrap();
                    tx.execute("DELETE FROM chunks WHERE document_id = ?1", (&d,)).unwrap();
                }
                StoreAction::Insert(i) => {
                    let r = row_of(&chunks[i]);
                    tx.execute(
                        "INSERT INTO chunks(document_id, chunk_id, source, text, normalized, \
                         char_count, token_count, created_at, metadata) \
                         VALUES (?1, ?2, ?3, ?4, ?5, ?6, ?7, ?8, ?9)",
                        (
                            r.document_id,
                            r.chunk_id,
                            r.source,
                            r.text,
                            r.normalized,
                            r.char_count,
                            r.token_count,
                            r.created_at,
                            r.metadata,
                        ),
                    )
                    .unwrap();
                    if let Some(v) = vectors.get(i) {
                        let held: Vec<Score> =
                            v.iter().map(|x| Score { bits: x.to_bits() }).collect();
                        tx.execute(
                            "INSERT INTO vec_chunks(rowid, embedding) VALUES (?1, ?2)",
                            (tx.last_insert_rowid(), vec_to_blob(&held)),
                        )
                        .unwrap();
                    }
                }
            }
        }
        tx.commit().unwrap();
    }

    fn upsert(&mut self, chunks: &[StoredChunk], vectors: &[Vec<f32>]) -> Result<(), StoreError> {
        let lens: Vec<usize> = vectors.iter().map(|v| v.len()).collect();
        let actions = plan_upsert(chunks, &lens, self.dim)?;
        self.run(actions, chunks, vectors);
        Ok(())
    }

    fn count(&self, table: &str) -> usize {
        let n: i64 = self
            .conn
            .query_row(&format!("SELECT COUNT(*) FROM {table}"), (), |r| r.get(0))
            .unwrap();
        n as usize
    }

    fn all_chunks(&self) -> Vec<StoredChunk> {
        let mut stmt = self
            .conn
            .prepare(
                "SELECT document_id, chunk_id, source, text, normalized, char_count, token_count, \
                 created_at, metadata FROM chunks ORDER BY source, chunk_id",
            )
            .unwrap();
        let rows = stmt
            .query_map((), |r| {
                Ok(chunk_of(ChunkRow {
                    document_id: r.get(0)?,
                    chunk_id: r.get(1)?,
                    source: r.get(2)?,
                    text: r.get(3)?,
                    normalized: r.get(4)?,
                    char_count: r.get(5)?,
                    token_count: r.get(6)?,
                    created_at: r.get(7)?,
                    metadata: r.get(8)?,
                }))
            })
            .unwrap();
        rows.map(|r| r.unwrap()).collect()
    }

    fn search(&self, query: &[f32], top_k: usize) -> Result<Vec<Hit>, StoreError> {
        let k = match plan_search(query.len(), top_k, self.count("chunks"), self.dim)? {
            Some(k) => k as usize,
            None => return Ok(Vec::new()),
        };
        let mut stmt = self
            .conn
            .prepare(
                "SELECT c.document_id, c.chunk_id, c.source, c.text, v.embedding \
                 FROM vec_chunks v JOIN chunks c ON c.rowid = v.rowid",
            )
            .unwrap();
        let rows = stmt
            .query_map((), |r| {
                let bytes: Vec<u8> = r.get(4)?;
                let cosine: f32 = bytes
                    .chunks_exact(4)
                    .map(|b| f32::from_le_bytes([b[0], b[1], b[2], b[3]]))
                    .zip(query)
                    .map(|(x, y)| x * y)
                    .sum();
                let score = Score { bits: cosine.clamp(0.0, 1.0).to_bits() };
                Ok(vector_hit(r.get(0)?, r.get(1)?, r.get(2)?, r.get(3)?, score))
            })
            .unwrap();
        let mut hits: Vec<Hit> = rows.map(|r| r.unwrap()).collect();
        hits.sort_by(|a, b| {
            f32::from_bits(b.score.bits).partial_cmp(&f32::from_bits(a.score.bits)).unwrap()
        });
        hits.truncate(k);
        Ok(hits)
    }

    fn delete_source(&mut self, source: &str) -> usize {
        self.conn
            .execute(
                "DELETE FROM vec_chunks WHERE rowid IN \
                 (SELECT rowid FROM chunks WHERE source = ?1)",
                (source,),
            )
            .unwrap();
        self.conn.execute("DELETE FROM chunks WHERE source = ?1", (source,)).unwrap()
    }

    fn list_sources(&self) -> Vec<(String, usize)> {
        let mut stmt = self
            .conn
            .prepare("SELECT source, COUNT(*) FROM chunks GROUP BY source ORDER BY source")
            .unwrap();
        let rows = stmt
            .query_map((), |r| {
                let n: i64 = r.get(1)?;
                Ok((r.get(0)?, n as usize))
            })
            .unwrap();
        rows.map(|r| r.unwrap()).collect()
    }
}

fn chunk(source: &str, id: usize, text: &str) -> StoredChunk {
    StoredChunk {
        document_id: stable_id(source),
        chunk_id: id,
        source: source.to_string(),
        text: text.to_string(),
        normalized: text.to_lowercase(),
        char_count: text.chars().count(),
        token_count: text.split_whitespace().count(),
        created_at: now_unix(),
        metadata: None,
    }
}

fn embed_one(p: &MockEmbeddingProvider, text: &str) -> Vec<f32> {
    let w: Vec<f32> = p.embed_weights(text).iter().map(|n| *n as f32).collect();
    let norm = w.iter().map(|x| x * x).sum::<f32>().sqrt();
    w.iter().map(|x| x / norm).collect()
}

#[test]
fn insert_and_search_returns_nearest() {
    let p = MockEmbeddingProvider::new(128);
    let mut store = Table::open("nearest", p.dimension()).unwrap();

    let chunks = vec![
        chunk("specs.txt", 0, "The Helios H1 battery lasts eight hours per charge"),
        chunk("pricing.md", 0, "Growth plan annual pricing with volume discount"),
        chunk("faq.txt", 0, "Support is available weekdays from nine to five"),
    ];
    let vectors: Vec<Vec<f32>> = chunks.iter().map(|c| embed_one(&p, &c.text)).collect();
    store.upsert(&chunks, &vectors).unwrap();
    assert_eq!(store.count("chunks"), 3);

    let q = embed_one(&p, "how many hours does the battery last");
    let hits = store.search(&q, 2).unwrap();
    assert!(!hits.is_empty());
    assert_eq!(hits[0].source, "specs.txt");
    assert!(f32::from_bits(hits[0].score.bits) > 0.0);
    assert_eq!(hits[0].retrieval, HitSource::Vector);
}

#[test]
fn delete_source_removes_vectors_too() {
    let p = MockEmbeddingProvider::new(64);
    let mut store = Table::open("delete", p.dimension()).unwrap();
    let chunks = vec![chunk("a.txt", 0, "alpha battery"), chunk("b.txt", 0, "beta pricing")];
    let vecs: Vec<Vec<f32>> = chunks.iter().map(|c| embed_one(&p, &c.text)).collect();
    store.upsert(&chunks, &vecs).unwrap();
    assert_eq!(store.delete_source("a.txt"), 1);
    assert_eq!(store.count("chunks"), 1);
    assert_eq!(store.count("vec_chunks"), 1);
    let hits = store.search(&vecs[0], 2).unwrap();
    assert_eq!(hits.len(), 1, "the vector of a.txt is gone");
    assert_eq!(hits[0].source, "b.txt");
    assert_eq!(store.list_sources(), vec![("b.txt".to_string(), 1)]);
}

#[test]
fn upsert_same_document_replaces() {
    let p = MockEmbeddingProvider::new(64);
    let mut store = Table::open("replace", p.dimension()).unwrap();
    let v1 = vec![chunk("a.txt", 0, "first version of the text")];
    store.upsert(&v1, &[embed_one(&p, &v1[0].text)]).unwrap();
    let v2 = vec![
        chunk("a.txt", 0, "second version part one"),
        chunk("a.txt", 1, "second version part two"),
    ];
    let vecs: Vec<Vec<f32>> = v2.iter().map(|c| embed_one(&p, &c.text)).collect();
    store.upsert(&v2, &vecs).unwrap();
    // Re-uploading the same document replaces, not appends.
    assert_eq!(store.count("chunks"), 2);
    assert_eq!(store.count("vec_chunks"), 2);
    let texts: Vec<String> = store.all_chunks().into_iter().map(|c| c.text).collect();
    assert_eq!(texts, ["second version part one", "second version part two"]);
}

#[test]
fn dimension_mismatch_is_rejected() {
    let _first = Table::open("dim", 64).unwrap();
    assert!(Table::open("dim", 64).is_ok());
    // Reopening with a different dimension must fail clearly.
    let result = Table::open("dim", 128);
    assert!(result.is_err(), "reopening with a different dimension should fail");
    let err = result.err().unwrap().message();
    assert!(err.contains("dimension mismatch"), "got: {err}");
    assert_eq!(
        err,
        "vector database dimension mismatch: stored index is 64-dim but the current embedding \
         model is 128-dim. Run the rebuild command (POST /api/rebuild) to recreate the local index."
    );
}

#[test]
fn a_recorded_dimension_is_read_as_a_number() {
    assert_eq!(check_recorded(&None, 64), Ok(true));
    assert_eq!(check_recorded(&Some("64".to_string()), 64), Ok(false));
    assert_eq!(check_recorded(&Some("+64".to_string()), 64), Ok(false));
    assert_eq!(check_recorded(&Some("sixty".to_string()), 64), Ok(true));
    assert_eq!(check_recorded(&Some(" 64".to_string()), 64), Ok(true));
    assert_eq!(
        check_recorded(&Some("-1".to_string()), 64),
        Err(StoreError::StoredDimension { stored: -1, dim: 64 })
    );
    let e = check_recorded(&Some("-1".to_string()), 64).unwrap_err();
    assert!(e.message().contains("stored index is -1-dim"));
    assert_eq!(check_dimension(0), Err(StoreError::ZeroDimension));
    assert_eq!(
        StoreError::ZeroDimension.message(),
        "embedding dimension must be greater than zero"
    );
}

#[test]
fn writes_are_checked_before_anything_is_touched() {
    let chunks = vec![chunk("a.txt", 0, "one"), chunk("a.txt", 1, "two")];
    let e = plan_upsert(&chunks, &[3], 3).unwrap_err();
    assert_eq!(e, StoreError::CountMismatch { chunks: 2, vectors: 1 });
    assert_eq!(e.message(), "chunk/vector count mismatch: 2 chunks vs 1 vectors");
    let e = plan_upsert(&chunks, &[3, 4], 3).unwrap_err();
    assert_eq!(e, StoreError::VectorDimension { index: 1, got: 4, dim: 3 });
    assert_eq!(e.message(), "vector 1 has 4 dims, expected 3");
    assert!(plan_upsert(&[], &[], 3).unwrap().is_empty());
}

#[test]
fn each_document_is_deleted_once_before_the_inserts() {
    let chunks = vec![
        chunk("a.txt", 0, "one"),
        chunk("b.txt", 0, "two"),
        chunk("a.txt", 1, "three"),
    ];
    let actions: Vec<String> = plan_write(&chunks).iter().map(|a| format!("{a:?}")).collect();
    assert_eq!(
        actions,
        vec![
            format!("DeleteDocument({:?})", stable_id("a.txt")),
            format!("DeleteDocument({:?})", stable_id("b.txt")),
            "Insert(0)".to_string(),
            "Insert(1)".to_string(),
            "Insert(2)".to_string(),
        ]
    );
}

#[test]
fn searches_are_checked() {
    let e = plan_search(3, 5, 1, 4).unwrap_err();
    assert_eq!(e, StoreError::QueryDimension { got: 3, dim: 4 });
    assert_eq!(e.message(), "query vector has 3 dims, expected 4");
    assert_eq!(plan_search(4, 0, 1, 4), Ok(None));
    assert_eq!(plan_search(4, 5, 0, 4), Ok(None));
    assert_eq!(plan_search(4, 5, 1, 4), Ok(Some(5)));
}

#[test]
fn blobs_are_little_endian() {
    let numbers = [1.0f32, -2.5, 0.1];
    let scores: Vec<Score> = numbers.iter().map(|x| Score { bits: x.to_bits() }).collect();
    let mut expected: Vec<u8> = Vec::new();
    for x in numbers {
        expected.extend_from_slice(&x.to_le_bytes());
    }
    assert_eq!(vec_to_blob(&scores), expected);
}

#[test]
fn chunks_read_back() {
    let c = chunk("a.txt", 3, "some text here");
    let row = row_of(&c);
    assert_eq!(row.chunk_id, 3);
    assert_eq!(row.char_count, 14);
    let back = chunk_of(row);
    assert_eq!(back.chunk_id, 3);
    assert_eq!(back.text, c.text);
    assert_eq!(back.token_count, 3);
    assert!(back.metadata.is_none());
}

#[test]
fn metadata_is_read_as_json() {
    let row = |m: &str| ChunkRow {
        document_id: "d".to_string(),
        chunk_id: 0,
        source: "s".to_string(),
        text: "t".to_string(),
        normalized: "t".to_string(),
        char_count: 1,
        token_count: 1,
        created_at: 0,
        metadata: Some(m.to_string()),
    };
    assert_eq!(chunk_of(row("{ \"b\" : 1 }")).metadata, Some("{\"b\":1}".to_string()));
    assert_eq!(chunk_of(row("no json")).metadata, None);
    assert_eq!(chunk_with(row("x"), Some("kept".to_string())).metadata, Some("kept".to_string()));
}
