//! What fusion gives back, in terms of the lists and of the fused scores.
use vstd::prelude::*;

use crate::order::sorting_orders_and_keeps;
use crate::rag::hybrid::{
    first_place, fused_from, fused_hit, fused_hits, fused_order, fusion, fusion_loses_no_chunk,
    fusion_ranks_without_duplicates,
    gathering_merges_duplicates, group_of, groups, holds, lemma_fused_order, lemma_group_of,
    listed, only_several_layers_make_a_hybrid, same_chunk, with_hit, with_list, GroupView,
};
use crate::rag::score::Score;
use crate::rag::types::{HitSource, HitView};
use crate::search::text_before;

verus! {

/// The hit that stands for a group among the fused ones: the chunk of the group
/// with the fused score of the group.
pub open spec fn stands_for(h: HitView, g: GroupView, score: Score) -> bool {
    &&& h.document_id == g.hit.document_id
    &&& h.chunk_id == g.hit.chunk_id
    &&& h.source == g.hit.source
    &&& h.text == g.hit.text
    &&& h.score == score
}

proof fn lemma_sorted_fused(lists: Seq<Seq<HitView>>, scores: Seq<Score>, g: int) -> (i: int)
    requires
        scores.len() == groups(lists).len(),
        0 <= g < groups(lists).len(),
    ensures
        ({
            let all = fusion(lists, scores, groups(lists).len() as int);
            &&& 0 <= i < all.len()
            &&& all[i] == fused_hit(groups(lists)[g], scores[g])
        }),
{
    broadcast use vstd::seq_lib::group_to_multiset_ensures;

    let raw = fused_hits(groups(lists), scores);
    let all = fusion(lists, scores, groups(lists).len() as int);
    lemma_fused_order();
    sorting_orders_and_keeps(raw, fused_order());
    assert(raw[g] == fused_hit(groups(lists)[g], scores[g]));
    assert(raw.contains(raw[g]));
    assert(raw.to_multiset().count(raw[g]) > 0);
    assert(all.to_multiset().count(raw[g]) > 0);
    assert(all.contains(raw[g]));
    choose|i: int| 0 <= i < all.len() && all[i] == raw[g]
}

/// The best come first, and only the worst are left out: the fused hits are
/// ordered by their fused scores, then by source and by the number of the chunk;
/// there are as many as were asked for, or as there are chunks; and no chunk that
/// is left out has a higher fused score than one that is kept.
pub proof fn the_best_fused_scores_are_kept(
    lists: Seq<Seq<HitView>>,
    scores: Seq<Score>,
    top_k: int,
)
    requires
        top_k >= 0,
        scores.len() == groups(lists).len(),
    ensures
        fusion(lists, scores, top_k).len() == if top_k < groups(lists).len() {
            top_k
        } else {
            groups(lists).len() as int
        },
        forall|i: int, j: int|
            0 <= i < j < fusion(lists, scores, top_k).len() ==> (#[trigger] fusion(
                lists,
                scores,
                top_k,
            )[i]).score.rank() >= (#[trigger] fusion(lists, scores, top_k)[j]).score.rank(),
        forall|i: int, j: int|
            0 <= i < j < fusion(lists, scores, top_k).len() && (#[trigger] fusion(
                lists,
                scores,
                top_k,
            )[i]).score.rank() == (#[trigger] fusion(lists, scores, top_k)[j]).score.rank() ==> {
                let a = fusion(lists, scores, top_k)[i];
                let b = fusion(lists, scores, top_k)[j];
                text_before(a.source, b.source) || a.source == b.source && a.chunk_id <= b.chunk_id
            },
        forall|i: int, g: int|
            0 <= i < fusion(lists, scores, top_k).len() && 0 <= g < groups(lists).len() && !holds(
                fusion(lists, scores, top_k),
                (#[trigger] groups(lists)[g]).hit,
            ) ==> (#[trigger] fusion(lists, scores, top_k)[i]).score.rank() >= scores[g].rank(),
{
    let n = groups(lists).len() as int;
    let all = fusion(lists, scores, n);
    let top = fusion(lists, scores, top_k);
    fusion_ranks_without_duplicates(lists, scores, n);
    fusion_ranks_without_duplicates(lists, scores, top_k);
    assert(all.len() == n);
    assert forall|i: int| 0 <= i < top.len() implies #[trigger] top[i] == all[i] by {}
    assert forall|i: int, j: int| 0 <= i < j < all.len() implies (#[trigger] all[i]).score.rank()
        >= (#[trigger] all[j]).score.rank() by {
        assert(fused_order()(all[i], all[j]));
    }
    assert forall|i: int, j: int| 0 <= i < j < top.len() implies (#[trigger] top[i]).score.rank()
        >= (#[trigger] top[j]).score.rank() by {
        assert(all[i].score.rank() >= all[j].score.rank());
    }
    assert forall|i: int, j: int|
        0 <= i < j < top.len() && (#[trigger] top[i]).score.rank() == (
        #[trigger] top[j]).score.rank() implies text_before(top[i].source, top[j].source)
        || top[i].source == top[j].source && top[i].chunk_id <= top[j].chunk_id by {
        assert(fused_order()(all[i], all[j]));
    }
    assert forall|i: int, g: int|
        0 <= i < top.len() && 0 <= g < groups(lists).len() && !holds(
            top,
            (#[trigger] groups(lists)[g]).hit,
        ) implies (#[trigger] top[i]).score.rank() >= scores[g].rank() by {
        let k = lemma_sorted_fused(lists, scores, g);
        if k < top.len() {
            assert(top[k] == all[k]);
            assert(same_chunk(top[k], groups(lists)[g].hit));
        }
        assert(all[i].score.rank() >= all[k].score.rank());
    }
}

/// Every fused hit is one of the chunks of the lists as it stands there, with the
/// fused score of its group. It is a hybrid hit if and only if more than one list
/// holds it or it was one already.
pub proof fn fused_hits_are_chunks_of_the_lists(
    lists: Seq<Seq<HitView>>,
    scores: Seq<Score>,
    top_k: int,
    i: int,
)
    requires
        top_k >= 0,
        scores.len() == groups(lists).len(),
        lists.len() <= usize::MAX,
        forall|l: int| 0 <= l < lists.len() ==> (#[trigger] lists[l]).len() <= usize::MAX,
        0 <= i < fusion(lists, scores, top_k).len(),
    ensures
        ({
            let h = fusion(lists, scores, top_k)[i];
            exists|g: int|
                {
                    &&& 0 <= g < groups(lists).len()
                    &&& stands_for(h, #[trigger] groups(lists)[g], scores[g])
                    &&& listed(lists, groups(lists)[g].hit)
                    &&& h.retrieval == if (exists|l: int, m: int|
                        0 <= l < m < lists.len() && #[trigger] holds(lists[l], h)
                            && #[trigger] holds(lists[m], h)) {
                        HitSource::Hybrid
                    } else {
                        groups(lists)[g].hit.retrieval
                    }
                }
        }),
{
    let h = fusion(lists, scores, top_k)[i];
    fusion_ranks_without_duplicates(lists, scores, top_k);
    assert(fused_from(lists, scores, h));
    let g = choose|g: int|
        0 <= g < groups(lists).len() && h == fused_hit(#[trigger] groups(lists)[g], scores[g])
            && listed(lists, groups(lists)[g].hit);
    let x = groups(lists)[g].hit;
    only_several_layers_make_a_hybrid(lists, g, scores[g]);
    assert forall|l: int| 0 <= l < lists.len() implies #[trigger] holds(lists[l], h) == holds(
        lists[l],
        x,
    ) by {
        if holds(lists[l], h) {
            let k = choose|k: int| 0 <= k < lists[l].len() && same_chunk(#[trigger] lists[l][k], h);
            assert(same_chunk(lists[l][k], x));
        }
        if holds(lists[l], x) {
            let k = choose|k: int| 0 <= k < lists[l].len() && same_chunk(#[trigger] lists[l][k], x);
            assert(same_chunk(lists[l][k], h));
        }
    }
    if (exists|l: int, m: int|
        0 <= l < m < lists.len() && #[trigger] holds(lists[l], x) && #[trigger] holds(
            lists[m],
            x,
        )) {
        let (l, m) = choose|l: int, m: int|
            0 <= l < m < lists.len() && #[trigger] holds(lists[l], x) && #[trigger] holds(
                lists[m],
                x,
            );
        assert(holds(lists[l], h) && holds(lists[m], h));
    }
    if (exists|l: int, m: int|
        0 <= l < m < lists.len() && #[trigger] holds(lists[l], h) && #[trigger] holds(
            lists[m],
            h,
        )) {
        let (l, m) = choose|l: int, m: int|
            0 <= l < m < lists.len() && #[trigger] holds(lists[l], h) && #[trigger] holds(
                lists[m],
                h,
            );
        assert(holds(lists[l], x) && holds(lists[m], x));
    }
    assert(stands_for(h, groups(lists)[g], scores[g]));
}

// ── Which hit stands for a chunk ─────────────────────────────────────────────

/// No two groups hold the same chunk, every hit that `seen` knows has its group,
/// and none of them scores above the hit that its group keeps.
spec fn faithful(gs: Seq<GroupView>, seen: spec_fn(HitView) -> bool) -> bool {
    &&& forall|i: int, j: int|
        0 <= i < j < gs.len() ==> !same_chunk((#[trigger] gs[i]).hit, (#[trigger] gs[j]).hit)
    &&& forall|x: HitView| #[trigger]
        seen(x) ==> exists|i: int| 0 <= i < gs.len() && same_chunk((#[trigger] gs[i]).hit, x)
    &&& forall|i: int, h: HitView|
        0 <= i < gs.len() && #[trigger] seen(h) && same_chunk((#[trigger] gs[i]).hit, h)
            ==> !h.score.exceeds(gs[i].hit.score)
}

proof fn lemma_faithful_hit(
    gs: Seq<GroupView>,
    h: HitView,
    l: usize,
    rank: usize,
    before: spec_fn(HitView) -> bool,
    seen: spec_fn(HitView) -> bool,
)
    requires
        faithful(gs, before),
        forall|x: HitView| #[trigger] seen(x) ==> before(x) || x == h,
    ensures
        faithful(with_hit(gs, h, l, rank), seen),
{
    lemma_group_of(gs, h);
    let r = with_hit(gs, h, l, rank);
    let p = group_of(gs, h);
    assert forall|i: int, j: int| 0 <= i < j < r.len() implies !same_chunk(
        (#[trigger] r[i]).hit,
        (#[trigger] r[j]).hit,
    ) by {
        if j < gs.len() {
            assert(!same_chunk(gs[i].hit, gs[j].hit));
        } else {
            assert(!same_chunk(gs[i].hit, h));
        }
    }
    assert forall|x: HitView| #[trigger] seen(x) implies exists|i: int|
        0 <= i < r.len() && same_chunk((#[trigger] r[i]).hit, x) by {
        if before(x) {
            let j = choose|j: int| 0 <= j < gs.len() && same_chunk((#[trigger] gs[j]).hit, x);
            assert(same_chunk(r[j].hit, x));
        } else if p < 0 {
            assert(same_chunk(r[gs.len() as int].hit, x));
        } else {
            assert(same_chunk(r[p].hit, x));
        }
    }
    assert forall|i: int, x: HitView|
        0 <= i < r.len() && #[trigger] seen(x) && same_chunk(
            (#[trigger] r[i]).hit,
            x,
        ) implies !x.score.exceeds(r[i].hit.score) by {
        if p < 0 {
            if i < gs.len() {
                assert(r[i] == gs[i]);
                if !before(x) {
                    assert(same_chunk(gs[i].hit, h));
                }
            } else if before(x) {
                let j = choose|j: int| 0 <= j < gs.len() && same_chunk((#[trigger] gs[j]).hit, x);
                assert(same_chunk(gs[j].hit, h));
            }
        } else if i == p {
            assert(same_chunk(gs[p].hit, x));
        } else {
            assert(r[i] == gs[i]);
            if !before(x) {
                if i < p {
                    assert(!same_chunk(gs[i].hit, gs[p].hit));
                } else {
                    assert(!same_chunk(gs[p].hit, gs[i].hit));
                }
            }
        }
    }
}

proof fn lemma_faithful_list(
    gs: Seq<GroupView>,
    list: Seq<HitView>,
    l: usize,
    before: spec_fn(HitView) -> bool,
)
    requires
        faithful(gs, before),
    ensures
        faithful(with_list(gs, list, l), |h: HitView| before(h) || list.contains(h)),
    decreases list.len(),
{
    let seen = |h: HitView| before(h) || list.contains(h);
    if list.len() == 0 {
        assert forall|x: HitView| #[trigger] seen(x) implies before(x) by {}
    } else {
        let d = list.drop_last();
        let mid = |h: HitView| before(h) || d.contains(h);
        lemma_faithful_list(gs, d, l, before);
        assert forall|x: HitView| #[trigger] seen(x) implies mid(x) || x == list.last() by {
            if list.contains(x) && x != list.last() {
                let k = choose|k: int| 0 <= k < list.len() && list[k] == x;
                assert(d[k] == x);
            }
        }
        lemma_faithful_hit(
            with_list(gs, d, l),
            list.last(),
            l,
            (list.len() - 1) as usize,
            mid,
            seen,
        );
    }
}

proof fn lemma_faithful(lists: Seq<Seq<HitView>>)
    ensures
        faithful(groups(lists), |h: HitView| listed(lists, h)),
    decreases lists.len(),
{
    let seen = |h: HitView| listed(lists, h);
    if lists.len() > 0 {
        let d = lists.drop_last();
        let list = lists.last();
        let before = |h: HitView| listed(d, h);
        let both = |h: HitView| before(h) || list.contains(h);
        lemma_faithful(d);
        lemma_faithful_list(groups(d), list, (lists.len() - 1) as usize, before);
        let gs = groups(lists);
        assert(faithful(gs, both));
        assert forall|x: HitView| #[trigger] seen(x) implies both(x) by {
            let (m, k) = choose|m: int, k: int|
                0 <= m < lists.len() && 0 <= k < lists[m].len() && #[trigger] lists[m][k] == x;
            if m < d.len() {
                assert(d[m][k] == x);
            } else {
                assert(list[k] == x);
            }
        }
        assert forall|i: int, h: HitView|
            0 <= i < gs.len() && #[trigger] seen(h) && same_chunk(
                (#[trigger] gs[i]).hit,
                h,
            ) implies !h.score.exceeds(gs[i].hit.score) by {
            assert(both(h));
        }
        assert forall|x: HitView| #[trigger] seen(x) implies exists|i: int|
            0 <= i < gs.len() && same_chunk((#[trigger] gs[i]).hit, x) by {
            assert(both(x));
        }
    }
}

/// Of several hits of one chunk the one with the highest score of its own stands
/// for it.
pub proof fn the_best_hit_stands_for_a_chunk(lists: Seq<Seq<HitView>>, l: int, k: int, g: int)
    requires
        0 <= l < lists.len(),
        0 <= k < lists[l].len(),
        0 <= g < groups(lists).len(),
        same_chunk(groups(lists)[g].hit, lists[l][k]),
    ensures
        listed(lists, groups(lists)[g].hit),
        !lists[l][k].score.exceeds(groups(lists)[g].hit.score),
{
    let seen = |h: HitView| listed(lists, h);
    gathering_merges_duplicates(lists);
    lemma_faithful(lists);
    assert(listed(lists, lists[l][k]));
    assert(seen(lists[l][k]));
}

/// A chunk is told by its document and its number: no two fused hits have both in
/// common, and where enough hits are asked for, the document and the number of
/// every hit of every list are those of a fused one.
pub proof fn every_chunk_is_fused_once(
    lists: Seq<Seq<HitView>>,
    scores: Seq<Score>,
    top_k: int,
    l: int,
    k: int,
)
    requires
        top_k >= 0,
        scores.len() == groups(lists).len(),
        0 <= l < lists.len(),
        0 <= k < lists[l].len(),
    ensures
        forall|i: int, j: int|
            0 <= i < j < fusion(lists, scores, top_k).len() && (#[trigger] fusion(
                lists,
                scores,
                top_k,
            )[i]).document_id == (#[trigger] fusion(lists, scores, top_k)[j]).document_id
                ==> fusion(lists, scores, top_k)[i].chunk_id != fusion(
                lists,
                scores,
                top_k,
            )[j].chunk_id,
        top_k >= groups(lists).len() ==> exists|i: int|
            0 <= i < fusion(lists, scores, top_k).len() && (#[trigger] fusion(
                lists,
                scores,
                top_k,
            )[i]).document_id == lists[l][k].document_id && fusion(
                lists,
                scores,
                top_k,
            )[i].chunk_id == lists[l][k].chunk_id,
{
    let r = fusion(lists, scores, top_k);
    fusion_ranks_without_duplicates(lists, scores, top_k);
    assert forall|i: int, j: int|
        0 <= i < j < r.len() && (#[trigger] r[i]).document_id == (
        #[trigger] r[j]).document_id implies r[i].chunk_id != r[j].chunk_id by {
        assert(!same_chunk(r[i], r[j]));
    }
    if top_k >= groups(lists).len() {
        fusion_loses_no_chunk(lists, scores, top_k, l, k);
        let i = choose|i: int| 0 <= i < r.len() && same_chunk(#[trigger] r[i], lists[l][k]);
        assert(r[i].document_id == lists[l][k].document_id);
    }
}

/// What reciprocal rank fusion adds up: a list counts for a chunk if it holds the
/// chunk, and then once, by the first place of the chunk in it.
pub proof fn every_list_counts_once(lists: Seq<Seq<HitView>>, g: int, l: int, k: int)
    requires
        lists.len() <= usize::MAX,
        forall|m: int| 0 <= m < lists.len() ==> (#[trigger] lists[m]).len() <= usize::MAX,
        0 <= g < groups(lists).len(),
        0 <= l < lists.len(),
        0 <= k < lists[l].len(),
        lists[l][k].document_id == groups(lists)[g].hit.document_id,
        lists[l][k].chunk_id == groups(lists)[g].hit.chunk_id,
        forall|m: int|
            0 <= m < k && (#[trigger] lists[l][m]).document_id
                == groups(lists)[g].hit.document_id ==> lists[l][m].chunk_id != groups(
                lists,
            )[g].hit.chunk_id,
    ensures
        groups(lists)[g].ranks.len() == groups(lists)[g].lists.len(),
        groups(lists)[g].lists.no_duplicates(),
        exists|a: int|
            0 <= a < groups(lists)[g].lists.len() && #[trigger] groups(lists)[g].lists[a] == l
                && groups(lists)[g].ranks[a] == k,
        forall|a: int|
            0 <= a < groups(lists)[g].lists.len() ==> #[trigger] groups(lists)[g].lists[a]
                < lists.len(),
{
    let gs = groups(lists);
    let x = gs[g];
    only_several_layers_make_a_hybrid(lists, g, x.hit.score);
    assert(same_chunk(lists[l][k], x.hit));
    assert(holds(lists[l], x.hit));
    assert(gs[g].lists.contains(l as usize));
    let a = choose|a: int| 0 <= a < x.lists.len() && x.lists[a] == l as usize;
    assert(first_place(lists[gs[g].lists[a] as int], x.hit, x.ranks[a] as int));
    let r = x.ranks[a] as int;
    if r < k {
        assert(lists[l][r].document_id == x.hit.document_id);
    }
    assert(r == k);
    assert forall|b: int, c: int| 0 <= b < c < x.lists.len() implies x.lists[b] != x.lists[c] by {
        assert(gs[g].lists[b] < gs[g].lists[c]);
    }
    assert forall|b: int| 0 <= b < x.lists.len() implies #[trigger] gs[g].lists[b]
        < lists.len() by {
        assert(gs[g].lists.contains(gs[g].lists[b]));
    }
}

} // verus!
