//! Chunking of documents.
use agent_toolkit::config::Config;
use agent_toolkit::rag::chunk::{
    chunk_document, chunk_document_at, hard_split, normalize, segment, split_paragraphs,
    split_sentences, MIN_CHUNK_CHARS,
};
use agent_toolkit::rag::pack::pack;
use agent_toolkit::rag::types::RagConfig;

fn cfg(chunk: usize, overlap: usize) -> RagConfig {
    let mut c = RagConfig::from_app_config(&Config::default());
    c.chunk_chars = chunk;
    c.overlap_chars = overlap;
    c
}

fn texts(v: &[&str]) -> Vec<String> {
    v.iter().map(|s| s.to_string()).collect()
}

#[test]
fn deterministic_same_input_same_chunks() {
    let text = "Alpha paragraph one.\n\nBeta paragraph two.\n\nGamma paragraph three.";
    let a = chunk_document(&cfg(40, 10), "doc.txt", text);
    let b = chunk_document(&cfg(40, 10), "doc.txt", text);
    assert_eq!(a.len(), b.len());
    for (x, y) in a.iter().zip(b.iter()) {
        assert_eq!(x.text, y.text);
        assert_eq!(x.chunk_id, y.chunk_id);
        assert_eq!(x.document_id, y.document_id);
    }
}

#[test]
fn respects_chunk_size_and_indexes_chunks() {
    let mut text = String::new();
    for i in 0..40 {
        text.push_str(&format!("Sentence number {i} about robots and pricing.\n\n"));
    }
    let chunks = chunk_document(&cfg(200, 40), "big.txt", &text);
    assert!(chunks.len() > 1, "expected multiple chunks, got {}", chunks.len());
    for (idx, c) in chunks.iter().enumerate() {
        assert_eq!(c.chunk_id, idx, "chunk_id should be sequential");
        assert!(c.char_count <= 260, "chunk too large: {}", c.char_count);
        assert!(c.char_count > 0);
        assert!(c.char_count <= 200);
        assert_eq!(c.char_count, c.text.chars().count());
        assert_eq!(c.token_count, c.text.split_whitespace().count());
    }
}

#[test]
fn overlap_carries_context_between_chunks() {
    let mut text = String::new();
    for i in 0..20 {
        text.push_str(&format!("Para {i} has unique token tok{i} inside it here.\n\n"));
    }
    let chunks = chunk_document(&cfg(150, 60), "ov.txt", &text);
    assert!(chunks.len() >= 2);
    let first_tail_token = chunks[0].text.split_whitespace().last().unwrap().to_string();
    let second = &chunks[1].text;
    assert!(
        second.contains(&first_tail_token) || chunks[0].text.contains("tok"),
        "expected overlapping context between consecutive chunks"
    );
    let last_line = chunks[0].text.lines().last().unwrap();
    assert_eq!(second.lines().next().unwrap(), last_line);
}

#[test]
fn never_splits_inside_a_word() {
    let long_word = "supercalifragilisticexpialidocious";
    let text = format!(
        "{} {} {} {} {}",
        long_word, long_word, long_word, long_word, long_word
    );
    let chunks = chunk_document(&cfg(40, 5), "w.txt", &text);
    for c in &chunks {
        for w in c.text.split_whitespace() {
            assert_eq!(w, long_word, "found a split word fragment");
        }
    }
    assert_eq!(chunks.len(), 5);
}

#[test]
fn short_document_is_kept_whole() {
    let chunks = chunk_document(&cfg(3500, 600), "tiny.txt", "Hello there.");
    assert_eq!(chunks.len(), 1);
    assert_eq!(chunks[0].text, "Hello there.");
    assert_eq!(chunks[0].normalized, "hello there.");
}

#[test]
fn normalize_collapses_and_lowercases() {
    assert_eq!(normalize("  Hello   WORLD\n\tFoo "), "hello world foo");
}

#[test]
fn normalize_lowers_beyond_ascii() {
    assert_eq!(normalize("ÄRGER  Straße"), "ärger straße");
    assert_eq!(normalize("ΟΔΥΣΣΕΥΣ"), "οδυσσευς");
}

#[test]
fn paragraphs_end_at_blank_lines() {
    assert_eq!(
        split_paragraphs("  one\ntwo  \n \t\n\nthree\r\n\r\nfour"),
        texts(&["one\ntwo", "three", "four"])
    );
    assert_eq!(split_paragraphs(" \n\t\n"), texts(&[]));
    assert_eq!(split_paragraphs(""), texts(&[]));
}

#[test]
fn sentences_end_at_stops_before_whitespace() {
    assert_eq!(
        split_sentences("It costs 3.5 e.g. now! Really? Yes."),
        texts(&["It costs 3.5 e.g.", "now!", "Really?", "Yes."])
    );
    assert_eq!(split_sentences("no stop"), texts(&["no stop"]));
}

#[test]
fn hard_splits_prefer_whitespace() {
    assert_eq!(hard_split("aaaa bbbb cccc", 10), texts(&["aaaa bbbb", "cccc"]));
    // Only a word that is longer than a piece is cut.
    assert_eq!(hard_split("ab cdefghij", 8), texts(&["ab", "cdefghij"]));
    assert_eq!(hard_split("aa bbbbbbbbbbbb", 10), texts(&["aa", "bbbbbbbbbb", "bb"]));
    assert_eq!(hard_split("abcdefgh ij", 8), texts(&["abcdefgh", "ij"]));
    assert_eq!(hard_split("short", 10), texts(&["short"]));
    assert_eq!(hard_split("ääääöööö", 3), texts(&["äää", "äöö", "öö"]));
}

#[test]
fn words_that_fit_are_whole_in_the_chunks() {
    let doc = "one three-letters abcdefghijklmnopqrstuvwxyz four. ".repeat(4);
    for size in [5usize, 13, 24, 30, 60] {
        let chunks = chunk_document(&cfg(size, 0), "d.txt", &doc);
        for c in &chunks {
            assert!(c.char_count <= size);
            for w in c.text.split_whitespace() {
                let whole = doc.split_whitespace().any(|d| d == w);
                let long = doc.split_whitespace().any(|d| d.len() > size && d.contains(w));
                assert!(whole || long, "{w} at {size}");
            }
        }
    }
}

#[test]
fn segments_are_paragraphs_then_sentences_then_pieces() {
    assert_eq!(
        segment("Short para.\n\nFirst sentence here. Second one.", 20),
        texts(&["Short para.", "First sentence here.", "Second one."])
    );
}

#[test]
fn packing_carries_whole_segments() {
    let segs = texts(&["aaaa", "bbbb", "cccc", "dddd"]);
    assert_eq!(pack(&segs, 9, 5), texts(&["aaaa\nbbbb", "bbbb\ncccc", "cccc\ndddd"]));
    assert_eq!(pack(&segs, 9, 4), texts(&["aaaa\nbbbb", "cccc\ndddd"]));
    assert_eq!(pack(&segs, 2, 0), segs);
    assert_eq!(pack(&[], 9, 5), texts(&[]));
}

#[test]
fn short_chunks_are_dropped_unless_there_is_no_other() {
    let long = "x".repeat(MIN_CHUNK_CHARS);
    let doc = format!("{long}\n\ntiny");
    let chunks = chunk_document(&cfg(MIN_CHUNK_CHARS, 0), "d.txt", &doc);
    assert_eq!(chunks.len(), 1);
    assert_eq!(chunks[0].text, long);

    let chunks = chunk_document(&cfg(6, 0), "d.txt", "abc\n\ndefgh\n\nijklm");
    let kept: Vec<&str> = chunks.iter().map(|c| c.text.as_str()).collect();
    assert_eq!(kept, ["abc", "defgh", "ijklm"], "the document is kept whole");

    let chunks = chunk_document(&cfg(10, 0), "d.txt", "alpha one.\n\nbeta two.");
    let kept: Vec<&str> = chunks.iter().map(|c| c.text.as_str()).collect();
    assert_eq!(kept, ["alpha one.", "beta two."]);
    assert_eq!(chunks[1].chunk_id, 1);
}

#[test]
fn whitespace_has_no_chunks() {
    assert!(chunk_document(&cfg(40, 10), "w.txt", " \n\t \u{3000}\n").is_empty());
    assert!(chunk_document(&cfg(0, 0), "w.txt", "").is_empty());
}

#[test]
fn the_time_of_indexing_is_all_that_differs() {
    let a = chunk_document_at(&cfg(40, 10), "doc.txt", "Alpha one.\n\nBeta two.", 7);
    let b = chunk_document_at(&cfg(40, 10), "doc.txt", "Alpha one.\n\nBeta two.", 8);
    assert_eq!(a.len(), b.len());
    assert_eq!(a[0].created_at, 7);
    assert_eq!(b[0].created_at, 8);
    assert_eq!(a[0].text, b[0].text);
    assert_eq!(a[0].document_id, b[0].document_id);
    assert!(a[0].metadata.is_none());
}

#[test]
fn chunks_are_indexed_now() {
    let before = agent_toolkit::rag::types::now_unix();
    let c = chunk_document(&cfg(40, 10), "doc.txt", "Alpha one.");
    let after = agent_toolkit::rag::types::now_unix();
    assert!(before <= c[0].created_at && c[0].created_at <= after);
    assert!(before > 1_600_000_000);
}
