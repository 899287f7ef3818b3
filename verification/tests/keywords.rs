//! The keyword index.
use agent_toolkit::rag::bm25::{indexed_terms, is_stopword, tokenize, Bm25Index, TermStats};
use agent_toolkit::rag::score::Score;
use agent_toolkit::rag::types::{now_unix, stable_id, Hit, HitSource, StoredChunk};

const BM25_K1: f32 = 1.5;
const BM25_B: f32 = 0.75;

fn chunk(source: &str, id: usize, text: &str) -> StoredChunk {
    StoredChunk {
        document_id: stable_id(source),
        chunk_id: id,
        source: source.to_string(),
        text: text.to_string(),
        normalized: text.to_lowercase(),
        char_count: text.chars().count(),
        token_count: text.split_whitespace().count(),
        created_at: now_unix(),
        metadata: None,
    }
}

/// What BM25 makes of the counts.
fn bm25(stats: &TermStats) -> Vec<Score> {
    let n = stats.lengths.len() as f32;
    let avgdl = stats.lengths.iter().map(|l| *l as f32).sum::<f32>() / n;
    let avgdl = if avgdl <= 0.0 { 1.0 } else { avgdl };
    (0..stats.lengths.len())
        .map(|d| {
            let mut score = 0.0f32;
            for t in 0..stats.terms.len() {
                let df = stats.doc_freq[t] as f32;
                let tf = stats.term_freq[d][t] as f32;
                if df == 0.0 || tf == 0.0 {
                    continue;
                }
                let idf = ((n - df + 0.5) / (df + 0.5) + 1.0).ln();
                let denom =
                    tf + BM25_K1 * (1.0 - BM25_B + BM25_B * stats.lengths[d] as f32 / avgdl);
                score += idf * (tf * (BM25_K1 + 1.0)) / denom;
            }
            Score { bits: score.to_bits() }
        })
        .collect()
}

fn search(idx: &Bm25Index, query: &str, k: usize) -> Vec<Hit> {
    let scores = bm25(&idx.term_stats(query));
    let mut hits = idx.search(query, k, &scores);
    if let Some(max) = hits.first().map(|h| f32::from_bits(h.score.bits)) {
        for h in hits.iter_mut() {
            h.score = Score { bits: (f32::from_bits(h.score.bits) / max).to_bits() };
        }
    }
    hits
}

#[test]
fn ranks_keyword_matches_first() {
    let mut idx = Bm25Index::new();
    idx.add(&chunk("a.txt", 0, "The Helios H1 battery lasts eight hours per charge."));
    idx.add(&chunk("b.txt", 0, "Pricing for the Growth plan includes a discount."));
    idx.add(&chunk("c.txt", 0, "Support hours are weekdays nine to five."));

    let hits = search(&idx, "how long does the battery last", 3);
    assert!(!hits.is_empty());
    assert_eq!(hits[0].source, "a.txt");
    assert!(
        (f32::from_bits(hits[0].score.bits) - 1.0).abs() < 1e-6,
        "top score should normalise to 1.0"
    );
}

#[test]
fn remove_source_drops_chunks() {
    let mut idx = Bm25Index::new();
    idx.add(&chunk("a.txt", 0, "alpha battery"));
    idx.add(&chunk("a.txt", 1, "beta battery"));
    idx.add(&chunk("b.txt", 0, "gamma pricing"));
    assert_eq!(idx.len(), 3);
    let removed = idx.remove_source("a.txt");
    assert_eq!(removed, 2);
    assert_eq!(idx.len(), 1);
    let remaining = idx.all_chunks();
    assert_eq!(remaining.len(), 1);
    assert_eq!(remaining[0].0, "b.txt");
}

#[test]
fn every_chunk_with_a_term_is_found() {
    let mut idx = Bm25Index::new();
    idx.add(&chunk("a.txt", 0, "alpha beta"));
    idx.add(&chunk("b.txt", 0, "gamma delta"));
    idx.add(&chunk("c.txt", 0, "beta epsilon"));
    let mut found: Vec<String> =
        search(&idx, "beta delta", 3).iter().map(|h| h.source.clone()).collect();
    found.sort();
    assert_eq!(found, ["a.txt", "b.txt", "c.txt"]);
    let mut found: Vec<String> = search(&idx, "beta", 3).iter().map(|h| h.source.clone()).collect();
    found.sort();
    assert_eq!(found, ["a.txt", "c.txt"]);
}

#[test]
fn empty_query_returns_nothing() {
    let mut idx = Bm25Index::new();
    idx.add(&chunk("a.txt", 0, "alpha battery"));
    assert!(search(&idx, "", 5).is_empty());
    assert!(search(&idx, "the and of", 5).is_empty()); // all stopwords
}

#[test]
fn nothing_is_asked_for_and_nothing_is_there() {
    let mut idx = Bm25Index::new();
    assert!(idx.is_empty());
    assert!(idx.search("battery", 5, &[]).is_empty());
    idx.add(&chunk("a.txt", 0, "alpha battery"));
    assert!(search(&idx, "battery", 0).is_empty());
    idx.clear();
    assert!(idx.is_empty());
}

#[test]
fn terms_are_lowered_split_and_filtered() {
    assert_eq!(tokenize("The H1-robot's Battery, at 8V!"), vec!["h1", "robot", "battery", "8v"]);
    assert!(tokenize("a b c ß é").is_empty(), "terms of one character are dropped");
    assert_eq!(tokenize("ÜBER größe 東京"), vec!["über", "größe", "東京"]);
    assert!(tokenize("what is this about").is_empty());
    assert!(is_stopword("most"));
    assert!(!is_stopword("battery"));
}

#[test]
fn case_does_not_change_terms_and_terms_give_themselves_back() {
    let text = "The H1-robot's Battery, at 8V!";
    let terms = tokenize(text);
    assert_eq!(tokenize(&text.to_uppercase()), terms);
    assert_eq!(tokenize(&terms.join(" ")), terms);
}

#[test]
fn shorter_searches_are_fronts_of_longer_ones() {
    let mut idx = Bm25Index::new();
    for i in 0..6 {
        idx.add(&chunk(&format!("{}.txt", 6 - i), 0, "battery life"));
    }
    idx.add(&chunk("best.txt", 0, "battery battery"));
    let all: Vec<String> =
        search(&idx, "battery", 7).iter().map(|h| h.source.clone()).collect();
    assert_eq!(all, ["best.txt", "6.txt", "5.txt", "4.txt", "3.txt", "2.txt", "1.txt"]);
    for k in 0..7 {
        let some: Vec<String> =
            search(&idx, "battery", k).iter().map(|h| h.source.clone()).collect();
        assert_eq!(some, all[..k]);
    }
}

#[test]
fn marked_stretches_become_terms() {
    let low: Vec<char> = "ab,the,cd".chars().collect();
    let mask: Vec<bool> = low.iter().map(|c| *c != ',').collect();
    assert_eq!(indexed_terms(&low, &mask), vec!["ab", "cd"]);
}

#[test]
fn statistics_count_terms() {
    let mut idx = Bm25Index::new();
    idx.add(&chunk("a.txt", 0, "battery battery robot"));
    idx.add(&chunk("b.txt", 0, "robot pricing"));
    let s = idx.term_stats("robot battery battery");
    assert_eq!(s.terms, vec!["battery", "robot"]);
    assert_eq!(s.lengths, vec![3, 2]);
    assert_eq!(s.doc_freq, vec![1, 2]);
    assert_eq!(s.term_freq, vec![vec![2, 1], vec![0, 1]]);
}

#[test]
fn hits_are_sorted_stably_and_cut() {
    let mut idx = Bm25Index::new();
    for (i, s) in ["a", "b", "c", "d"].iter().enumerate() {
        idx.add(&chunk(s, i, "battery"));
    }
    let score = |x: f32| Score { bits: x.to_bits() };
    let scores = [score(0.5), score(2.0), score(0.5), score(0.0)];
    let hits = idx.search("battery", 3, &scores);
    let order: Vec<&str> = hits.iter().map(|h| h.source.as_str()).collect();
    assert_eq!(order, vec!["b", "a", "c"]);
    assert_eq!(hits[0].retrieval, HitSource::Keyword);
    assert_eq!(hits[1].chunk_id, 0);
    assert_eq!(idx.search("battery", 1, &scores).len(), 1);
    // A score counts only for a chunk that shares a term.
    assert!(idx.search("pricing", 3, &scores).is_empty());
}

#[test]
fn scores_order_as_their_numbers() {
    let s = |x: f32| Score { bits: x.to_bits() };
    for (a, b) in [(0.0f32, -0.0f32), (1.0, -1.0), (0.25, 0.2), (f32::INFINITY, 3.0), (-2.0, -1.0)] {
        assert_eq!(s(a).is_at_least(s(b)), a >= b);
        assert_eq!(s(a).is_above(s(b)), a > b);
        assert_eq!(s(a).is_positive(), a > 0.0);
    }
    assert!(s(f32::NAN).is_nan());
    assert!(!s(f32::NAN).is_at_least(s(0.0)));
    assert!(!s(1.0).is_above(s(f32::NAN)));
    assert_eq!(Score::zero().bits, 0.0f32.to_bits());
}
