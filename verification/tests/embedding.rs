//! Embeddings and the names of models.
use agent_toolkit::rag::embed::{
    check_vectors, is_known, known_model, local_name, resolve_model, single_vector, EmbedError, LocalModel,
    MockEmbeddingProvider, DEFAULT_DIM, DEFAULT_MODEL,
};
use agent_toolkit::rag::score::Score;

fn embed_one(p: &MockEmbeddingProvider, text: &str) -> Vec<f32> {
    unit(&p.embed_weights(text))
}

fn unit(weights: &[usize]) -> Vec<f32> {
    let w: Vec<f32> = weights.iter().map(|n| *n as f32).collect();
    let norm = w.iter().map(|x| x * x).sum::<f32>().sqrt();
    w.iter().map(|x| x / norm).collect()
}

fn cosine(a: &[f32], b: &[f32]) -> f32 {
    a.iter().zip(b).map(|(x, y)| x * y).sum::<f32>()
}

#[test]
fn deterministic_and_correct_dimension() {
    let p = MockEmbeddingProvider::new(64);
    let a = embed_one(&p, "the quick brown fox");
    let b = embed_one(&p, "the quick brown fox");
    assert_eq!(a.len(), 64);
    assert_eq!(a, b, "mock embeddings must be deterministic");
    assert_eq!(p.dimension(), 64);
    assert_eq!(p.name(), "mock-hash-64d");
}

#[test]
fn similar_text_is_closer_than_unrelated_text() {
    let p = MockEmbeddingProvider::new(256);
    let q = embed_one(&p, "battery life of the robot");
    let related = embed_one(&p, "the robot battery lasts a long time");
    let unrelated = embed_one(&p, "quarterly pricing discounts for enterprise");
    assert!(
        cosine(&q, &related) > cosine(&q, &unrelated),
        "related text should have higher cosine similarity"
    );
}

#[test]
fn batch_matches_single() {
    let p = MockEmbeddingProvider::new(32);
    let batch: Vec<Vec<f32>> =
        p.embed(&["alpha".to_string(), "beta".to_string()]).iter().map(|w| unit(w)).collect();
    assert_eq!(batch.len(), 2);
    assert_eq!(batch[0], embed_one(&p, "alpha"));
    assert_eq!(batch[1], embed_one(&p, "beta"));
    assert_ne!(batch[0], batch[1]);
}

#[test]
fn a_text_without_tokens_weighs_in_the_first_bucket() {
    let p = MockEmbeddingProvider::new(4);
    assert_eq!(p.embed_weights(""), vec![1, 0, 0, 0]);
    assert_eq!(p.embed_weights("a !"), vec![1, 0, 0, 0]);
}

#[test]
fn tokens_fall_into_the_buckets_of_their_hash() {
    // The FNV-1a hash of "foobar" is 0x85944171f73967e8.
    assert_eq!(MockEmbeddingProvider::token_bucket("foobar", 256), 0xe8);
    assert_eq!(MockEmbeddingProvider::token_bucket("foobar", 10), 0x85944171f73967e8u64 as usize % 10);
    let p = MockEmbeddingProvider::new(256);
    let w = p.embed_weights("Foobar, foobar x");
    assert_eq!(w[0xe8], 2);
    assert_eq!(w.iter().sum::<usize>(), 2);
}

#[test]
fn marked_stretches_are_weighed() {
    let p = MockEmbeddingProvider::new(1);
    let low: Vec<char> = "ab cd e".chars().collect();
    let mask: Vec<bool> = low.iter().map(|c| *c != ' ').collect();
    assert_eq!(p.weigh(&low, &mask), vec![2]);
}

#[test]
fn models_are_resolved_by_name() {
    assert_eq!(resolve_model("all-MiniLM-L6-v2"), (LocalModel::AllMiniLML6V2, 384));
    assert_eq!(resolve_model(DEFAULT_MODEL).1, DEFAULT_DIM);
    assert_eq!(resolve_model("  BGE-Small "), (LocalModel::BGESmallENV15, 384));
    assert_eq!(resolve_model("bge-base-en-v1.5"), (LocalModel::BGEBaseENV15, 768));
    assert_eq!(resolve_model("minilm-l12"), (LocalModel::AllMiniLML12V2, 384));
    assert_eq!(resolve_model(""), (LocalModel::AllMiniLML6V2, 384));
    assert_eq!(resolve_model("no such model"), (LocalModel::AllMiniLML6V2, 384));
    assert_eq!(known_model("no such model"), None);
    assert!(is_known("all-MiniLM-L6-v2") && is_known("  BGE-Small "));
    assert!(!is_known("no such model"));
    assert_eq!(local_name("minilm"), "fastembed:minilm");
}

#[test]
fn vectors_of_another_dimension_are_refused() {
    assert_eq!(check_vectors(&[3, 3], 3), Ok(()));
    let e = check_vectors(&[3, 4, 5], 3).unwrap_err();
    assert_eq!(e, EmbedError::Dimension { got: 4, dim: 3 });
    assert_eq!(
        e.message(),
        "embedding dimension mismatch: model returned 4 dims, expected 3"
    );
}

#[test]
fn a_single_vector_is_the_last_one() {
    let one = Score { bits: 1 };
    let two = Score { bits: 2 };
    assert_eq!(single_vector(vec![vec![one], vec![two]], EmbedError::NoVector), Ok(vec![two]));
    let e = single_vector(vec![], EmbedError::NoVector).unwrap_err();
    assert_eq!(e.message(), "embedding provider returned no vector");
    let e = single_vector(vec![], EmbedError::NoQueryVector).unwrap_err();
    assert_eq!(e.message(), "query embedding produced no vector");
    assert_eq!(EmbedError::NoModel.message(), "no embedding model is available");
}
