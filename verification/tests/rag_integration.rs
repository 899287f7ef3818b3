//! The whole of retrieval, on a store in memory and with the mock embedding.
use agent_toolkit::config::Config;
use agent_toolkit::rag::context::{build_context, matched_document, retrieved_context, ContextStep};
use agent_toolkit::rag::embed::MockEmbeddingProvider;
use agent_toolkit::rag::hybrid::gather;
use agent_toolkit::rag::rebuild::{Rebuild, RebuildAction};
use agent_toolkit::rag::score::Score;
use agent_toolkit::rag::store::{chunk_of, plan_replace, plan_upsert, plan_write, row_of, StoreAction, StoreError};
use agent_toolkit::rag::system::{
    classify_file, in_source_order, retrieve, uploads, Document, FileKind, RagError, RagSystem,
    RetrievalResult,
};
use agent_toolkit::rag::types::{Hit, HitSource, RagConfig, RetrievalMode, StoredChunk};

const DIM: usize = 256;

const ROBOT_DOC: &str = "The Helios H1 robot battery lasts eight hours on a single charge. \
    Recharging the robot battery to full takes ninety minutes.";
const PRICING_DOC: &str = "Enterprise pricing offers volume discounts for annual contracts. \
    The Growth plan is billed monthly with no setup fee.";

/// What stays when the system is closed.
struct Disk {
    rows: Vec<(StoredChunk, Option<Vec<f32>>)>,
}

impl Disk {
    fn new() -> Disk {
        Disk { rows: Vec::new() }
    }

    fn all_chunks(&self) -> Vec<StoredChunk> {
        let mut v: Vec<StoredChunk> = self.rows.iter().map(|r| r.0.clone()).collect();
        v.sort_by(|a, b| (&a.source, a.chunk_id).cmp(&(&b.source, b.chunk_id)));
        v
    }

    fn run(&mut self, actions: Vec<StoreAction>, chunks: &[StoredChunk], vectors: &[Vec<f32>]) {
        for a in actions {
            match a {
                StoreAction::DeleteDocument(d) => self.rows.retain(|r| r.0.document_id != d),
                StoreAction::Insert(i) => {
                    self.rows.push((chunk_of(row_of(&chunks[i])), vectors.get(i).cloned()))
                }
            }
        }
    }

    fn list_sources(&self) -> Vec<(String, usize)> {
        let mut names: Vec<String> = self.rows.iter().map(|r| r.0.source.clone()).collect();
        names.sort();
        names.dedup();
        names
            .into_iter()
            .map(|n| {
                let count = self.rows.iter().filter(|r| r.0.source == n).count();
                (n, count)
            })
            .collect()
    }
}

fn embed(text: &str) -> Vec<f32> {
    let p = MockEmbeddingProvider::new(DIM);
    let w: Vec<f32> = p.embed_weights(text).iter().map(|n| *n as f32).collect();
    let norm = w.iter().map(|x| x * x).sum::<f32>().sqrt();
    w.iter().map(|x| x / norm).collect()
}

fn app_config() -> Config {
    Config { embedding_dim: DIM, ..Config::default() }
}

fn open_system(disk: &Disk, embedder: Option<usize>) -> RagSystem {
    let cfg = RagConfig::from_app_config(&app_config());
    RagSystem::open(cfg, embedder, &disk.all_chunks()).expect("open RagSystem")
}

fn add_document(sys: &mut RagSystem, disk: &mut Disk, source: &str, content: &str) -> usize {
    let ingest = sys.add_document(source, content).expect("readable text");
    if ingest.embed {
        let vectors: Vec<Vec<f32>> = ingest.chunks.iter().map(|c| embed(&c.text)).collect();
        let lens: Vec<usize> = vectors.iter().map(|v| v.len()).collect();
        let actions = plan_upsert(&ingest.chunks, &lens, sys.dimension()).unwrap();
        disk.run(actions, &ingest.chunks, &vectors);
    } else {
        disk.run(plan_write(&ingest.chunks), &ingest.chunks, &[]);
    }
    sys.index_document(source, &ingest.chunks)
}

fn keyword_scores(sys: &RagSystem, query: &str) -> Vec<Score> {
    let stats = sys.index().term_stats(query);
    let n = stats.lengths.len() as f32;
    let avgdl = stats.lengths.iter().map(|l| *l as f32).sum::<f32>() / n;
    let avgdl = if avgdl <= 0.0 { 1.0 } else { avgdl };
    (0..stats.lengths.len())
        .map(|d| {
            let mut score = 0.0f32;
            for t in 0..stats.terms.len() {
                let df = stats.doc_freq[t] as f32;
                let tf = stats.term_freq[d][t] as f32;
                if df == 0.0 || tf == 0.0 {
                    continue;
                }
                let idf = ((n - df + 0.5) / (df + 0.5) + 1.0).ln();
                let denom = tf + 1.5 * (1.0 - 0.75 + 0.75 * stats.lengths[d] as f32 / avgdl);
                score += idf * (tf * 2.5) / denom;
            }
            Score { bits: score.to_bits() }
        })
        .collect()
}

fn normalize(hits: &mut [Hit]) {
    if let Some(max) = hits.first().map(|h| f32::from_bits(h.score.bits)) {
        for h in hits.iter_mut() {
            h.score = Score { bits: (f32::from_bits(h.score.bits) / max).to_bits() };
        }
    }
}

fn vector_hits(disk: &Disk, query: &str, top_k: usize) -> Vec<Hit> {
    let q = embed(query);
    let mut near: Vec<(f32, &StoredChunk)> = disk
        .rows
        .iter()
        .filter_map(|(c, v)| {
            v.as_ref().map(|v| (v.iter().zip(&q).map(|(x, y)| x * y).sum::<f32>(), c))
        })
        .collect();
    near.sort_by(|a, b| b.0.partial_cmp(&a.0).unwrap());
    near.truncate(top_k);
    near.into_iter()
        .map(|(s, c)| Hit {
            text: c.text.clone(),
            source: c.source.clone(),
            score: Score { bits: s.clamp(0.0, 1.0).to_bits() },
            document_id: c.document_id.clone(),
            chunk_id: c.chunk_id,
            retrieval: HitSource::Vector,
        })
        .collect()
}

fn run_retrieval(
    sys: &RagSystem,
    disk: &Disk,
    query: &str,
    top_k: usize,
    requested: RetrievalMode,
    min_similarity: f32,
) -> RetrievalResult {
    let stored = disk.rows.len();
    let mode = sys.mode_for(requested, stored);
    let scores = if mode != RetrievalMode::Vector { keyword_scores(sys, query) } else { vec![] };
    let vec = if mode != RetrievalMode::Keyword { vector_hits(disk, query, top_k) } else { vec![] };
    let kw = if mode != RetrievalMode::Vector {
        sys.index().search(query, top_k, &scores)
    } else {
        vec![]
    };
    let lists = [kw, vec.clone()];
    let fused: Vec<Score> = gather(&lists)
        .iter()
        .map(|g| {
            let mut sum = 0.0f32;
            for r in &g.ranks {
                sum += 1.0 / (60.0 + (*r as f32 + 1.0));
            }
            Score { bits: sum.to_bits() }
        })
        .collect();
    let min = Score { bits: min_similarity.to_bits() };
    let mut result = sys.answer(query, &scores, requested, stored, top_k, min, vec, &fused);
    if result.mode == RetrievalMode::Keyword {
        normalize(&mut result.hits);
    }
    result
}

#[test]
fn ingests_persists_and_retrieves_across_restart() {
    let mut disk = Disk::new();

    // First "run": ingest two documents, then drop the system.
    {
        let mut sys = open_system(&disk, Some(DIM));
        let n1 = add_document(&mut sys, &mut disk, "robot.txt", ROBOT_DOC);
        let n2 = add_document(&mut sys, &mut disk, "pricing.txt", PRICING_DOC);
        assert!(n1 >= 1 && n2 >= 1);
        let sources = disk.list_sources();
        assert_eq!(sources.len(), 2, "both documents should be indexed");
    }

    // Second "run": nothing is ingested again.
    let sys = open_system(&disk, Some(DIM));
    let sources = disk.list_sources();
    assert_eq!(sources.len(), 2, "documents must persist across restart");

    // Semantic query should surface the robot document, not pricing.
    let result = run_retrieval(
        &sys,
        &disk,
        "how long does the robot battery last",
        5,
        RetrievalMode::Vector,
        0.0,
    );
    assert!(!result.hits.is_empty(), "expected vector hits after restart");
    assert_eq!(
        result.hits[0].source, "robot.txt",
        "most relevant chunk should be the robot doc"
    );
}

#[test]
fn retrieval_mode_selection_keyword_vector_hybrid() {
    let mut disk = Disk::new();
    let mut sys = open_system(&disk, Some(DIM));
    add_document(&mut sys, &mut disk, "robot.txt", ROBOT_DOC);
    add_document(&mut sys, &mut disk, "pricing.txt", PRICING_DOC);

    let query = "robot battery charge";

    let kw = run_retrieval(&sys, &disk, query, 5, RetrievalMode::Keyword, 0.0);
    assert_eq!(kw.mode, RetrievalMode::Keyword);
    assert!(!kw.hits.is_empty());
    assert!(kw.hits.iter().all(|h| matches!(h.retrieval, HitSource::Keyword)));

    let vec = run_retrieval(&sys, &disk, query, 5, RetrievalMode::Vector, 0.0);
    assert_eq!(vec.mode, RetrievalMode::Vector);
    assert!(!vec.hits.is_empty());

    let hyb = run_retrieval(&sys, &disk, query, 5, RetrievalMode::Hybrid, 0.0);
    assert_eq!(hyb.mode, RetrievalMode::Hybrid);
    assert!(!hyb.hits.is_empty());
    // The robot doc is the relevant one across every mode.
    assert_eq!(hyb.hits[0].source, "robot.txt");
}

#[test]
fn hybrid_results_are_deduplicated() {
    let mut disk = Disk::new();
    let mut sys = open_system(&disk, Some(DIM));
    add_document(&mut sys, &mut disk, "robot.txt", ROBOT_DOC);
    add_document(&mut sys, &mut disk, "pricing.txt", PRICING_DOC);

    let result = run_retrieval(
        &sys,
        &disk,
        "robot battery charge hours",
        8,
        RetrievalMode::Hybrid,
        0.0,
    );

    // No (document_id, chunk_id) pair appears twice after fusion.
    let mut keys: Vec<(String, usize)> =
        result.hits.iter().map(|h| (h.document_id.clone(), h.chunk_id)).collect();
    let total = keys.len();
    keys.sort();
    keys.dedup();
    assert_eq!(
        keys.len(),
        total,
        "hybrid results must be deduplicated by document+chunk"
    );
}

#[test]
fn low_confidence_when_nothing_matches() {
    let mut disk = Disk::new();
    let mut sys = open_system(&disk, Some(DIM));
    add_document(&mut sys, &mut disk, "robot.txt", ROBOT_DOC);

    // A query with no lexical overlap and a high similarity threshold should
    // not be considered confident evidence.
    let result = run_retrieval(
        &sys,
        &disk,
        "photosynthesis chlorophyll wavelength",
        5,
        RetrievalMode::Vector,
        0.95,
    );
    assert!(
        !result.confident,
        "unrelated query should not be confident at a high threshold"
    );
}

#[test]
fn duplicate_upload_replaces_rather_than_appends() {
    let mut disk = Disk::new();
    let mut sys = open_system(&disk, Some(DIM));
    add_document(&mut sys, &mut disk, "robot.txt", ROBOT_DOC);
    let before = disk.list_sources();
    let before_count: usize = before.iter().map(|(_, n)| n).sum();

    // Re-upload the same filename — chunks should be replaced, not duplicated.
    add_document(&mut sys, &mut disk, "robot.txt", ROBOT_DOC);
    let after = disk.list_sources();
    assert_eq!(after.len(), 1, "still a single source");
    let after_count: usize = after.iter().map(|(_, n)| n).sum();
    assert_eq!(before_count, after_count, "re-upload must not duplicate chunks");
    assert_eq!(sys.index().len(), after_count);
}

#[test]
fn without_a_model_retrieval_is_by_keyword() {
    let mut disk = Disk::new();
    let mut sys = open_system(&disk, None);
    assert!(!sys.embedder());
    add_document(&mut sys, &mut disk, "robot.txt", ROBOT_DOC);
    assert!(disk.rows[0].1.is_none());
    let r = run_retrieval(&sys, &disk, "robot battery", 5, RetrievalMode::Hybrid, 0.9);
    assert_eq!(r.mode, RetrievalMode::Keyword);
    assert!(r.confident);
    assert_eq!(r.hits[0].source, "robot.txt");

    assert!(!sys.set_embedder(DIM + 1));
    assert!(!sys.embedder());
    assert!(sys.set_embedder(DIM));
    assert_eq!(sys.mode_for(RetrievalMode::Vector, 1), RetrievalMode::Vector);
    assert_eq!(sys.mode_for(RetrievalMode::Vector, 0), RetrievalMode::Keyword);
}

#[test]
fn the_dimension_comes_from_the_model_or_the_settings() {
    let cfg = RagConfig::from_app_config(&app_config());
    let sys = RagSystem::open(cfg.clone(), Some(7), &[]).unwrap();
    assert_eq!(sys.dimension(), 7);
    let sys = RagSystem::open(cfg.clone(), None, &[]).unwrap();
    assert_eq!(sys.dimension(), DIM);
    assert_eq!(sys.config().chunk_chars, 3500);
    let err = RagSystem::open(cfg, Some(0), &[]).err().unwrap();
    assert_eq!(err, StoreError::ZeroDimension);
}

#[test]
fn documents_without_text_are_refused() {
    let sys = open_system(&Disk::new(), None);
    let e = sys.add_document("blank.txt", " \n ").unwrap_err();
    assert_eq!(e.message(), "No readable text found in 'blank.txt'.");
    let ok = sys.ingest_at("a.txt", "some text", 5).unwrap();
    assert_eq!(ok.chunks[0].created_at, 5);
    assert!(!ok.embed);
}

#[test]
fn searching_nothing_is_an_error() {
    let disk = Disk::new();
    let mut sys = open_system(&disk, None);
    let cfg = Config { top_k: 0, retrieval_mode: " BM25 ".to_string(), ..app_config() };
    let e = retrieve(&cfg, &sys, 0, 3).unwrap_err();
    assert!(matches!(e, RagError::NoDocuments));
    assert_eq!(e.message(), "No documents are loaded yet. Add a document first.");
    assert_eq!(retrieve(&cfg, &sys, 1, 0).unwrap().top_k, 1);
    let mut d = Disk::new();
    add_document(&mut sys, &mut d, "robot.txt", ROBOT_DOC);
    let q = retrieve(&cfg, &sys, 0, 3).unwrap();
    assert_eq!(q.top_k, 3);
    assert_eq!(q.mode, RetrievalMode::Keyword);
}

#[test]
fn removing_and_rebuilding_keep_the_rest() {
    let mut disk = Disk::new();
    let mut sys = open_system(&disk, None);
    add_document(&mut sys, &mut disk, "robot.txt", ROBOT_DOC);
    add_document(&mut sys, &mut disk, "pricing.txt", PRICING_DOC);
    assert!(!sys.remove_source("absent.txt", 0));
    assert_eq!(sys.index().len(), 2);

    // pricing.txt was uploaded; robot.txt is read afresh.
    let files = vec![document("robot.txt", "A new robot text that is long enough.")];
    assert_eq!(rebuild(&mut sys, &mut disk, files, &[]), Some(2));
    assert_eq!(disk.list_sources().len(), 2);
    assert_eq!(sys.index().len(), 2);
    assert!(disk.all_chunks().iter().any(|c| c.text.starts_with("A new robot")));

    disk.rows.retain(|r| r.0.source != "robot.txt");
    assert!(sys.remove_source("robot.txt", 1));
    assert_eq!(sys.index().all_chunks()[0].0, "pricing.txt");
}

fn document(source: &str, content: &str) -> Document {
    Document { source: source.to_string(), content: content.to_string() }
}

/// Rebuilds without embeddings; the steps in `failing` fail.
fn rebuild(
    sys: &mut RagSystem,
    disk: &mut Disk,
    files: Vec<Document>,
    failing: &[usize],
) -> Option<usize> {
    let mut run = Rebuild::start(sys, files, disk.all_chunks(), 7);
    for step in 0.. {
        let ok = !failing.contains(&step);
        match run.action() {
            RebuildAction::Prepare(chunks) => assert!(!chunks.is_empty()),
            RebuildAction::Replace(chunks) => {
                if ok {
                    disk.rows.clear();
                    disk.run(plan_replace(&chunks), &chunks, &[]);
                }
            }
            RebuildAction::Finish(n) => {
                sys.reindex(&run.into_chunks());
                return Some(n);
            }
            RebuildAction::GiveUp => return None,
        }
        run = run.step(ok);
    }
    None
}

fn contents(disk: &Disk) -> Vec<(String, usize, String)> {
    disk.all_chunks().into_iter().map(|c| (c.source, c.chunk_id, c.text)).collect()
}

#[test]
fn failed_rebuilds_change_nothing() {
    let mut disk = Disk::new();
    let mut sys = open_system(&disk, None);
    add_document(&mut sys, &mut disk, "robot.txt", ROBOT_DOC);
    add_document(&mut sys, &mut disk, "pricing.txt", PRICING_DOC);
    let before = contents(&disk);
    let files = || {
        vec![
            document("blank.txt", " \n "),
            document("robot.txt", "A new robot text that is long enough."),
        ]
    };
    // The steps are: the document, the uploads, the write.
    assert_eq!(rebuild(&mut sys, &mut disk, files(), &[1]), None);
    assert_eq!(contents(&disk), before);
    assert_eq!(rebuild(&mut sys, &mut disk, files(), &[2]), None);
    assert_eq!(contents(&disk), before);
    // A document that cannot be prepared is kept as it was stored.
    assert_eq!(rebuild(&mut sys, &mut disk, files(), &[0]), Some(2));
    assert_eq!(contents(&disk), before);

    assert_eq!(rebuild(&mut sys, &mut disk, files(), &[]), Some(2));
    let after = contents(&disk);
    assert_eq!(after[0], before[0], "the upload is kept");
    assert_eq!(after[1].2, "A new robot text that is long enough.");
    assert_eq!(rebuild(&mut sys, &mut disk, files(), &[]), Some(2));
    assert_eq!(contents(&disk), after, "a second rebuild changes nothing");
    assert_eq!(rebuild(&mut sys, &mut Disk::new(), vec![], &[]), Some(0));
}

#[test]
fn the_context_budget_counts_characters() {
    let mut disk = Disk::new();
    let mut sys = open_system(&disk, None);
    add_document(&mut sys, &mut disk, "umlauts.txt", &"ääää ".repeat(5000));
    match build_context(&sys, &app_config(), "tell me") {
        ContextStep::Done(c) => {
            assert!(!c.truncated);
            assert!(c.text.len() > 32_000 && c.text.chars().count() < 32_000);
        }
        ContextStep::Retrieve(_) => panic!("the library fits the budget"),
    }
}

#[test]
fn uploads_are_sorted_by_source_and_number() {
    let sys = open_system(&Disk::new(), None);
    let mut chunks = Vec::new();
    for s in ["b.txt", "a.txt"] {
        for id in [1, 0] {
            let mut c = sys.ingest_at(s, "some text", 1).unwrap().chunks.remove(0);
            c.chunk_id = id;
            chunks.push(c);
        }
    }
    let order: Vec<(String, usize)> =
        uploads(chunks, &[]).iter().map(|c| (c.source.clone(), c.chunk_id)).collect();
    let expected: Vec<(String, usize)> = [("a.txt", 0), ("a.txt", 1), ("b.txt", 0), ("b.txt", 1)]
        .iter()
        .map(|(s, i)| (s.to_string(), *i))
        .collect();
    assert_eq!(order, expected);
}

#[test]
fn files_are_sorted_out() {
    assert_eq!(classify_file("notes.MD", "MD"), FileKind::Document);
    assert_eq!(classify_file("a.txt", "txt"), FileKind::Document);
    assert_eq!(classify_file("a.markdown", "markdown"), FileKind::Document);
    assert_eq!(classify_file("a.text", "text"), FileKind::Document);
    assert_eq!(classify_file("x.sqlite", "sqlite"), FileKind::Database);
    assert_eq!(classify_file("x.db", "db"), FileKind::Database);
    assert_eq!(classify_file("rag_vectors.txt", "txt"), FileKind::Database);
    assert_eq!(classify_file("scan.pdf", "pdf"), FileKind::Unsupported);
    assert_eq!(classify_file("Makefile", ""), FileKind::Unsupported);
    let doc = |s: &str| Document { source: s.to_string(), content: String::new() };
    let sorted = in_source_order(vec![doc("b"), doc("a"), doc("B")]);
    let names: Vec<&str> = sorted.iter().map(|d| d.source.as_str()).collect();
    assert_eq!(names, vec!["B", "a", "b"]);
}

#[test]
fn messages_name_documents() {
    let sources: Vec<String> = ["pricing.md", "annual_report-2024.txt", "a.b", "größe.txt"]
        .iter()
        .map(|s| s.to_string())
        .collect();
    let m = |t: &str| matched_document(t, &sources);
    assert_eq!(m("Summarize PRICING.md please"), Some("pricing.md".to_string()));
    assert_eq!(m("what does the annual report 2024 say"), Some("annual_report-2024.txt".to_string()));
    assert_eq!(m("pricing in the annual report 2024"), Some("annual_report-2024.txt".to_string()));
    assert_eq!(m("is GRÖßE listed"), Some("größe.txt".to_string()));
    assert_eq!(m("what about a"), None);
    assert_eq!(m("hello"), None);
}

#[test]
fn small_libraries_are_in_the_context_whole() {
    let mut disk = Disk::new();
    let mut sys = open_system(&disk, None);
    let cfg = app_config();
    match build_context(&sys, &cfg, "anything") {
        ContextStep::Done(c) => {
            assert!(c.text.is_empty() && c.sources.is_empty() && !c.truncated)
        }
        ContextStep::Retrieve(_) => panic!("nothing to retrieve"),
    }
    add_document(&mut sys, &mut disk, "robot.txt", ROBOT_DOC);
    add_document(&mut sys, &mut disk, "pricing.txt", PRICING_DOC);
    match build_context(&sys, &cfg, "what is this all about") {
        ContextStep::Done(c) => {
            assert_eq!(
                c.text,
                format!(
                    "\n===== DOCUMENT: robot.txt =====\n{ROBOT_DOC}\n\n===== DOCUMENT: pricing.txt =====\n{PRICING_DOC}\n"
                )
            );
            assert_eq!(c.sources, vec!["robot.txt", "pricing.txt"]);
            assert!(!c.truncated);
        }
        ContextStep::Retrieve(_) => panic!("the library is small"),
    }
    match build_context(&sys, &cfg, "summarize robot") {
        ContextStep::Done(c) => {
            assert_eq!(c.text, format!("\n===== DOCUMENT: robot.txt =====\n{ROBOT_DOC}\n"));
            assert_eq!(c.sources, vec!["robot.txt"]);
        }
        ContextStep::Retrieve(_) => panic!("the message names a document"),
    }
}

#[test]
fn large_libraries_are_retrieved_from() {
    let mut disk = Disk::new();
    let mut sys = open_system(&disk, None);
    let mut big = String::new();
    for i in 0..800 {
        big.push_str(&format!("Paragraph number {i} tells of robots and their batteries.\n\n"));
    }
    add_document(&mut sys, &mut disk, "big.txt", &big);
    let cfg = Config { top_k: 0, ..app_config() };
    match build_context(&sys, &cfg, "tell me") {
        ContextStep::Retrieve(q) => {
            assert_eq!(q.top_k, 1);
            assert_eq!(q.mode, RetrievalMode::Hybrid);
        }
        ContextStep::Done(_) => panic!("the library is large"),
    }
    match build_context(&sys, &cfg, "summarize big.txt") {
        ContextStep::Done(c) => {
            assert!(c.truncated);
            assert!(c.text.len() <= 32_100);
            assert!(c.text.len() > 28_000);
        }
        ContextStep::Retrieve(_) => panic!("the message names a document"),
    }
}

#[test]
fn hits_are_cited() {
    let hit = |source: &str, text: String, retrieval| Hit {
        text,
        source: source.to_string(),
        score: Score { bits: 0.5f32.to_bits() },
        document_id: "d".to_string(),
        chunk_id: 3,
        retrieval,
    };
    let result = RetrievalResult {
        hits: vec![
            hit("b.txt", "beta".to_string(), HitSource::Vector),
            hit("a.txt", "alpha".to_string(), HitSource::Hybrid),
        ],
        mode: RetrievalMode::Hybrid,
        confident: true,
    };
    let labels: Vec<String> =
        result.hits.iter().map(|h| format!("{:.2}", f32::from_bits(h.score.bits))).collect();
    let c = retrieved_context(&result, &labels);
    assert_eq!(
        c.text,
        "\n(The most relevant excerpts from your documents, retrieved by hybrid search. Each is \
         labelled with its source so you can cite it.)\n\
         \n----- from b.txt (chunk 3, semantic match, score 0.50) -----\nbeta\n\
         \n----- from a.txt (chunk 3, hybrid match, score 0.50) -----\nalpha\n"
    );
    assert_eq!(c.sources, vec!["a.txt", "b.txt"]);
    assert!(c.truncated);

    // The second hit does not fit any more.
    let result = RetrievalResult {
        hits: vec![
            hit("b.txt", "x".repeat(32_000), HitSource::Keyword),
            hit("a.txt", "y".to_string(), HitSource::Keyword),
        ],
        mode: RetrievalMode::Keyword,
        confident: true,
    };
    let c = retrieved_context(&result, &labels);
    assert_eq!(c.sources, vec!["b.txt"]);
    assert!(c.text.contains("keyword match"));
}

#[test]
fn weak_evidence_is_admitted() {
    let failed = RetrievalResult::failed(RetrievalMode::Vector);
    let c = retrieved_context(&failed, &[]);
    assert_eq!(
        c.text,
        "\n(No sufficiently relevant passages were found in the uploaded documents for \
         this question. Tell the user you could not find enough evidence in their files \
         to answer confidently, rather than guessing.)\n"
    );
    assert!(c.sources.is_empty() && c.truncated);
}

/// The chunks that were found, in order.
fn chunks_found(result: &RetrievalResult) -> Vec<(String, usize)> {
    let mut found: Vec<(String, usize)> =
        result.hits.iter().map(|h| (h.document_id.clone(), h.chunk_id)).collect();
    found.sort();
    found
}

#[test]
fn reopened_systems_find_the_same_chunks() {
    let mut disk = Disk::new();
    let mut sys = open_system(&disk, Some(DIM));
    add_document(&mut sys, &mut disk, "robot.txt", ROBOT_DOC);
    add_document(&mut sys, &mut disk, "gone.txt", "A battery that is soon removed.");
    add_document(&mut sys, &mut disk, "pricing.txt", PRICING_DOC);
    add_document(&mut sys, &mut disk, "robot.txt", ROBOT_DOC);
    disk.rows.retain(|r| r.0.source != "gone.txt");
    assert!(sys.remove_source("gone.txt", 1));

    let anew = open_system(&disk, Some(DIM));
    assert_eq!(sys.index().len(), anew.index().len());
    let k = disk.rows.len();
    for mode in [RetrievalMode::Keyword, RetrievalMode::Vector, RetrievalMode::Hybrid] {
        for query in ["robot battery", "annual pricing", "nothing of the kind"] {
            let before = run_retrieval(&sys, &disk, query, k, mode, 0.2);
            let after = run_retrieval(&anew, &disk, query, k, mode, 0.2);
            assert_eq!(before.mode, after.mode);
            assert_eq!(before.confident, after.confident);
            assert_eq!(chunks_found(&before), chunks_found(&after));
            assert!(before.hits.len() <= k);
        }
    }
}

#[test]
fn queries_are_answered_from_the_index() {
    let mut disk = Disk::new();
    let mut sys = open_system(&disk, Some(DIM));
    add_document(&mut sys, &mut disk, "robot.txt", ROBOT_DOC);
    add_document(&mut sys, &mut disk, "pricing.txt", PRICING_DOC);
    let one = |x: f32| Score { bits: x.to_bits() };
    let scores = [one(0.5), one(2.0)];
    let min = one(0.9);

    let r = sys.answer("battery", &scores, RetrievalMode::Keyword, 2, 5, min, vec![], &[]);
    assert_eq!(r.mode, RetrievalMode::Keyword);
    assert!(r.confident);
    assert_eq!(chunks_found(&r).len(), 1);
    assert_eq!((r.hits[0].source.as_str(), r.hits[0].score), ("robot.txt", one(0.5)));
    let none = sys.answer("zebra", &scores, RetrievalMode::Keyword, 2, 5, min, vec![], &[]);
    assert!(none.hits.is_empty() && !none.confident);

    let near = vector_hits(&disk, "annual contracts", 1);
    let r = sys.answer(
        "battery",
        &scores,
        RetrievalMode::Hybrid,
        2,
        5,
        min,
        near.clone(),
        &[one(0.3), one(0.4)],
    );
    let sources: Vec<&str> = r.hits.iter().map(|h| h.source.as_str()).collect();
    assert_eq!(sources, ["pricing.txt", "robot.txt"]);
    assert_eq!(r.hits[0].retrieval, HitSource::Vector);
    assert_eq!(r.hits[1].retrieval, HitSource::Keyword);

    let keyword = sys.index().search("battery", 5, &scores);
    let fused = [one(0.3), one(0.4)];
    let same = sys.retrieve(RetrievalMode::Hybrid, 2, 5, min, keyword, near.clone(), &fused);
    assert_eq!(chunks_found(&same), chunks_found(&r));
    let v = sys.answer("battery", &[], RetrievalMode::Vector, 2, 5, min, near, &[]);
    assert_eq!((v.hits.len(), v.mode), (1, RetrievalMode::Vector));
    assert_eq!(v.hits[0].source, "pricing.txt");
}

#[test]
fn replacing_stores_exactly_the_chunks() {
    let disk = Disk::new();
    let sys = open_system(&disk, None);
    let mut chunks = sys.add_document("robot.txt", ROBOT_DOC).unwrap().chunks;
    chunks.extend(sys.add_document("pricing.txt", PRICING_DOC).unwrap().chunks);
    let mut disk = Disk::new();
    disk.run(plan_replace(&chunks), &chunks, &[]);
    let held: Vec<(&str, usize)> =
        disk.rows.iter().map(|r| (r.0.source.as_str(), r.0.chunk_id)).collect();
    let given: Vec<(&str, usize)> =
        chunks.iter().map(|c| (c.source.as_str(), c.chunk_id)).collect();
    assert_eq!(held, given);
    assert!(plan_replace(&[]).is_empty());
}
