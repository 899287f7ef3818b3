//! Merging of ranked lists.
use agent_toolkit::rag::hybrid::{gather, reciprocal_rank_fusion};
use agent_toolkit::rag::score::Score;
use agent_toolkit::rag::types::{stable_id, Hit, HitSource};

const RRF_K: f32 = 60.0;

fn hit(source: &str, chunk_id: usize, score: f32, retrieval: HitSource) -> Hit {
    Hit {
        text: format!("{source}#{chunk_id}"),
        source: source.to_string(),
        score: Score { bits: score.to_bits() },
        document_id: stable_id(source),
        chunk_id,
        retrieval,
    }
}

fn fuse(lists: &[Vec<Hit>], top_k: usize) -> Vec<Hit> {
    let scores: Vec<Score> = gather(lists)
        .iter()
        .map(|g| {
            let mut sum = 0.0f32;
            for r in &g.ranks {
                sum += 1.0 / (RRF_K + (*r as f32 + 1.0));
            }
            Score { bits: sum.to_bits() }
        })
        .collect();
    let mut hits = reciprocal_rank_fusion(lists, &scores, top_k);
    let max = hits.first().map(|h| f32::from_bits(h.score.bits)).unwrap_or(0.0);
    for h in hits.iter_mut() {
        h.score = Score { bits: (f32::from_bits(h.score.bits) / max).to_bits() };
    }
    hits
}

#[test]
fn deduplicates_by_document_and_chunk() {
    let keyword = vec![
        hit("a.txt", 0, 1.0, HitSource::Keyword),
        hit("b.txt", 0, 0.5, HitSource::Keyword),
    ];
    let vector = vec![
        hit("b.txt", 0, 0.9, HitSource::Vector),
        hit("c.txt", 0, 0.7, HitSource::Vector),
    ];

    let merged = fuse(&[keyword, vector], 10);
    let keys: Vec<_> = merged.iter().map(|h| (h.source.clone(), h.chunk_id)).collect();
    let mut unique = keys.clone();
    unique.sort();
    unique.dedup();
    assert_eq!(keys.len(), unique.len(), "results must be deduplicated");
    assert_eq!(merged.len(), 3); // a, b, c — b merged once
}

#[test]
fn chunk_in_both_lists_ranks_first_and_is_hybrid() {
    let keyword = vec![
        hit("shared.txt", 0, 0.4, HitSource::Keyword),
        hit("kw.txt", 0, 0.9, HitSource::Keyword),
    ];
    let vector = vec![
        hit("shared.txt", 0, 0.4, HitSource::Vector),
        hit("vec.txt", 0, 0.9, HitSource::Vector),
    ];

    let merged = fuse(&[keyword, vector], 10);
    assert_eq!(merged[0].source, "shared.txt", "chunk found by both layers should win");
    assert_eq!(merged[0].retrieval, HitSource::Hybrid);
    assert!(
        (f32::from_bits(merged[0].score.bits) - 1.0).abs() < 1e-6,
        "top fused score normalises to 1.0"
    );
    // Single-layer hits keep their own provenance.
    let kw = merged.iter().find(|h| h.source == "kw.txt").unwrap();
    assert_eq!(kw.retrieval, HitSource::Keyword);
}

#[test]
fn respects_top_k() {
    let a = vec![
        hit("a.txt", 0, 1.0, HitSource::Keyword),
        hit("b.txt", 0, 0.9, HitSource::Keyword),
    ];
    let b = vec![
        hit("c.txt", 0, 1.0, HitSource::Vector),
        hit("d.txt", 0, 0.9, HitSource::Vector),
    ];
    let merged = fuse(&[a, b], 2);
    assert_eq!(merged.len(), 2);
}

#[test]
fn chunks_of_one_layer_are_kept() {
    let kw = vec![hit("a.txt", 0, 1.0, HitSource::Keyword), hit("b.txt", 0, 0.5, HitSource::Keyword)];
    let vec = vec![hit("b.txt", 0, 0.9, HitSource::Vector), hit("c.txt", 3, 0.1, HitSource::Vector)];
    let merged = fuse(&[kw, vec], 3);
    for (source, chunk_id) in [("a.txt", 0), ("b.txt", 0), ("c.txt", 3)] {
        assert!(merged.iter().any(|h| h.source == source && h.chunk_id == chunk_id));
    }
}

#[test]
fn empty_lists_yield_empty() {
    let merged = fuse(&[vec![], vec![]], 5);
    assert!(merged.is_empty());
}

#[test]
fn groups_keep_the_better_hit_and_all_ranks() {
    let keyword = vec![
        hit("x.txt", 1, 0.1, HitSource::Keyword),
        hit("b.txt", 0, 0.5, HitSource::Keyword),
    ];
    let vector = vec![hit("b.txt", 0, 0.9, HitSource::Vector)];
    let groups = gather(&[keyword, vector]);
    assert_eq!(groups.len(), 2);
    assert_eq!(groups[0].hit.source, "x.txt");
    assert_eq!(groups[1].ranks, vec![1, 0]);
    assert_eq!(groups[1].lists, vec![0, 1]);
    assert_eq!(groups[0].lists, vec![0]);
    assert_eq!(f32::from_bits(groups[1].hit.score.bits), 0.9);
    assert_eq!(groups[1].hit.retrieval, HitSource::Vector);
}

#[test]
fn a_chunk_twice_in_one_list_is_no_hybrid() {
    let keyword = vec![
        hit("a.txt", 0, 1.0, HitSource::Keyword),
        hit("a.txt", 0, 0.5, HitSource::Keyword),
    ];
    let groups = gather(&[keyword.clone(), vec![]]);
    assert_eq!(groups[0].ranks, vec![0], "each list counts once");
    assert_eq!(groups[0].lists, vec![0]);
    let merged = fuse(&[keyword, vec![]], 10);
    assert_eq!(merged.len(), 1);
    assert_eq!(merged[0].source, "a.txt");
    assert_eq!(merged[0].retrieval, HitSource::Keyword);
}

#[test]
fn ties_go_by_source_and_number() {
    let a = vec![hit("b.txt", 0, 1.0, HitSource::Keyword)];
    let b = vec![hit("a.txt", 7, 1.0, HitSource::Vector)];
    let merged = fuse(&[a, b], 5);
    assert_eq!(merged[0].source, "a.txt");
    assert_eq!(merged[1].source, "b.txt");

    let s = Score { bits: 1.0f32.to_bits() };
    let list = vec![
        hit("a.txt", 2, 1.0, HitSource::Vector),
        hit("a.txt", 1, 1.0, HitSource::Vector),
    ];
    let merged = reciprocal_rank_fusion(&[list], &[s, s], 5);
    assert_eq!(merged[0].chunk_id, 1);
    assert_eq!(merged[0].retrieval, HitSource::Vector);
}

#[test]
fn first_place_is_worth_one_sixty_first() {
    let lists = [vec![hit("a.txt", 0, 1.0, HitSource::Keyword)]];
    let groups = gather(&lists);
    assert_eq!(1.0 / (RRF_K + (groups[0].ranks[0] as f32 + 1.0)), 1.0f32 / 61.0);
}
