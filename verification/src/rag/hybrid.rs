//! Merging ranked lists by reciprocal rank fusion.
//!
//! Fusion is by rank: what a chunk is worth depends only on the places that it
//! takes in the lists, so lists whose scores live on different scales can be
//! merged. The library gathers the places of each chunk; the sum that they are
//! worth is floating point and comes back as a score.
use vstd::prelude::*;

use crate::order::{first_k, in_order, is_order, sorted_by, sorting_orders_and_keeps, stable_sort, Ranked};
use crate::rag::score::Score;
use crate::rag::types::{Hit, HitSource, HitView};
use crate::search::{comes_before, lemma_text_before_total, lemma_text_before_trans, same_text, text_before};

verus! {

// ── Groups ───────────────────────────────────────────────────────────────────

/// One chunk, with the places that it takes in the lists.
#[derive(Debug)]
pub struct Group {
    /// The hit with the highest score of its own.
    pub hit: Hit,
    /// The place of the chunk in each list that holds it, counted from 0: the first
    /// one, if a list holds it several times.
    pub ranks: Vec<usize>,
    /// The lists that hold the chunk, each once, in increasing order.
    pub lists: Vec<usize>,
}

/// What a [`Group`] stands for.
#[verifier::ext_equal]
pub struct GroupView {
    pub hit: HitView,
    pub ranks: Seq<usize>,
    pub lists: Seq<usize>,
}

impl DeepView for Group {
    type V = GroupView;

    open spec fn deep_view(&self) -> GroupView {
        GroupView { hit: self.hit@, ranks: self.ranks@, lists: self.lists@ }
    }
}

/// Two hits refer to the same chunk of the same document.
pub open spec fn same_chunk(a: HitView, b: HitView) -> bool {
    a.document_id == b.document_id && a.chunk_id == b.chunk_id
}

/// Which group a hit belongs to, or -1.
pub open spec fn group_of(gs: Seq<GroupView>, h: HitView) -> int
    decreases gs.len(),
{
    if gs.len() == 0 {
        -1
    } else if same_chunk(gs.last().hit, h) {
        gs.len() - 1
    } else {
        group_of(gs.drop_last(), h)
    }
}

/// List `l` is the last of those in which the chunk of a group was seen.
pub open spec fn seen_in(g: GroupView, l: usize) -> bool {
    g.lists.len() > 0 && g.lists.last() == l
}

/// The groups with a hit more, at place `rank` of list `l`. The group keeps the
/// hit that scores higher.
pub open spec fn with_hit(gs: Seq<GroupView>, h: HitView, l: usize, rank: usize) -> Seq<
    GroupView,
> {
    let p = group_of(gs, h);
    if p < 0 {
        gs.push(GroupView { hit: h, ranks: seq![rank], lists: seq![l] })
    } else {
        gs.update(
            p,
            GroupView {
                hit: if h.score.exceeds(gs[p].hit.score) {
                    h
                } else {
                    gs[p].hit
                },
                ranks: if seen_in(gs[p], l) {
                    gs[p].ranks
                } else {
                    gs[p].ranks.push(rank)
                },
                lists: if seen_in(gs[p], l) {
                    gs[p].lists
                } else {
                    gs[p].lists.push(l)
                },
            },
        )
    }
}

/// The groups with all hits of list `l` more.
pub open spec fn with_list(gs: Seq<GroupView>, list: Seq<HitView>, l: usize) -> Seq<GroupView>
    decreases list.len(),
{
    if list.len() == 0 {
        gs
    } else {
        with_hit(with_list(gs, list.drop_last(), l), list.last(), l, (list.len() - 1) as usize)
    }
}

/// The chunks of all lists, in the order in which they are first seen.
pub open spec fn groups(lists: Seq<Seq<HitView>>) -> Seq<GroupView>
    decreases lists.len(),
{
    if lists.len() == 0 {
        Seq::empty()
    } else {
        with_list(groups(lists.drop_last()), lists.last(), (lists.len() - 1) as usize)
    }
}

fn is_same_chunk(a: &Hit, b: &Hit) -> (r: bool)
    ensures
        r == same_chunk(a@, b@),
{
    a.chunk_id == b.chunk_id && same_text(a.document_id.as_str(), b.document_id.as_str())
}

fn find_group(gs: &Vec<Group>, h: &Hit) -> (r: Option<usize>)
    ensures
        match r {
            Some(p) => p < gs@.len() && group_of(gs.deep_view(), h@) == p,
            None => group_of(gs.deep_view(), h@) == -1,
        },
{
    let ghost all = gs.deep_view();
    let mut n: usize = gs.len();
    proof {
        assert(all.take(n as int) =~= all);
    }
    while n > 0
        invariant
            n <= gs@.len(),
            all == gs.deep_view(),
            all.len() == gs@.len(),
            group_of(all, h@) == group_of(all.take(n as int), h@),
        decreases n,
    {
        proof {
            assert(all.take(n as int).last() == gs@[n - 1].deep_view());
            assert(all.take(n as int).drop_last() =~= all.take(n - 1));
        }
        if is_same_chunk(&gs[n - 1].hit, h) {
            return Some(n - 1);
        }
        n = n - 1;
    }
    None
}

fn add_hit(gs: &mut Vec<Group>, h: &Hit, l: usize, rank: usize)
    ensures
        final(gs).deep_view() == with_hit(old(gs).deep_view(), h@, l, rank),
{
    let ghost before = gs.deep_view();
    match find_group(gs, h) {
        Some(p) => {
            let g = &mut gs[p];
            if h.score.is_above(g.hit.score) {
                g.hit = h.clone();
            }
            if g.lists.len() == 0 || g.lists[g.lists.len() - 1] != l {
                g.ranks.push(rank);
                g.lists.push(l);
            }
            proof {
                assert(gs.deep_view() =~= with_hit(before, h@, l, rank));
            }
        },
        None => {
            let mut ranks: Vec<usize> = Vec::new();
            ranks.push(rank);
            let mut lists: Vec<usize> = Vec::new();
            lists.push(l);
            gs.push(Group { hit: h.clone(), ranks: ranks, lists: lists });
            proof {
                assert(gs.deep_view().last().ranks =~= seq![rank]);
                assert(gs.deep_view().last().lists =~= seq![l]);
                assert(gs.deep_view() =~= with_hit(before, h@, l, rank));
            }
        },
    }
}

/// Gathers the chunks of all lists, in the order in which they are first seen.
pub fn gather(lists: &[Vec<Hit>]) -> (r: Vec<Group>)
    ensures
        r.deep_view() == groups(lists.deep_view()),
{
    let ghost all = lists.deep_view();
    let mut gs: Vec<Group> = Vec::new();
    let mut i: usize = 0;
    proof {
        assert(all.take(0) =~= Seq::<Seq<HitView>>::empty());
        assert(gs.deep_view() =~= Seq::<GroupView>::empty());
    }
    while i < lists.len()
        invariant
            i <= lists@.len(),
            all == lists.deep_view(),
            all.len() == lists@.len(),
            gs.deep_view() == groups(all.take(i as int)),
        decreases lists@.len() - i,
    {
        let list = &lists[i];
        let ghost one = list.deep_view();
        let ghost start = gs.deep_view();
        proof {
            let next = all.take(i + 1);
            assert(next.drop_last() =~= all.take(i as int));
            assert(next.last() == one);
            assert(one.take(0) =~= Seq::<HitView>::empty());
        }
        let mut j: usize = 0;
        while j < list.len()
            invariant
                j <= list@.len(),
                one == list.deep_view(),
                one.len() == list@.len(),
                gs.deep_view() == with_list(start, one.take(j as int), i),
            decreases list@.len() - j,
        {
            proof {
                let next = one.take(j + 1);
                assert(next.drop_last() =~= one.take(j as int));
                assert(next.last() == list@[j as int]@);
            }
            add_hit(&mut gs, &list[j], i, j);
            j = j + 1;
        }
        proof {
            assert(one.take(j as int) =~= one);
        }
        i = i + 1;
    }
    proof {
        assert(all.take(i as int) =~= all);
    }
    gs
}

// ── Fusion ───────────────────────────────────────────────────────────────────

/// The hit that a group with a fused score makes. One that more than one list
/// surfaced is a hybrid hit.
pub open spec fn fused_hit(g: GroupView, score: Score) -> HitView {
    HitView {
        score: score,
        retrieval: if g.lists.len() > 1 {
            HitSource::Hybrid
        } else {
            g.hit.retrieval
        },
        ..g.hit
    }
}

/// The hits that groups with fused scores make.
pub open spec fn fused_hits(gs: Seq<GroupView>, scores: Seq<Score>) -> Seq<HitView> {
    gs.map(|i: int, g: GroupView| fused_hit(g, scores[i]))
}

/// The order of fused hits: by score, the best first; then by source and by the
/// number of the chunk.
pub open spec fn fused_order() -> spec_fn(HitView, HitView) -> bool {
    |a: HitView, b: HitView|
        a.score.rank() > b.score.rank() || (a.score.rank() == b.score.rank() && (text_before(
            a.source,
            b.source,
        ) || (a.source == b.source && a.chunk_id <= b.chunk_id)))
}

/// The best `top_k` chunks of the lists by their fused scores.
pub open spec fn fusion(lists: Seq<Seq<HitView>>, scores: Seq<Score>, top_k: int) -> Seq<HitView> {
    first_k(sorted_by(fused_hits(groups(lists), scores), fused_order()), top_k)
}

struct Fused {
    hit: Hit,
}

impl DeepView for Fused {
    type V = HitView;

    closed spec fn deep_view(&self) -> HitView {
        self.hit@
    }
}

impl Ranked for Fused {
    closed spec fn order() -> spec_fn(HitView, HitView) -> bool {
        fused_order()
    }

    fn may_precede(&self, other: &Self) -> (r: bool) {
        let a = self.hit.score.ranking();
        let b = other.hit.score.ranking();
        a > b || (a == b && (comes_before(self.hit.source.as_str(), other.hit.source.as_str())
            || (same_text(self.hit.source.as_str(), other.hit.source.as_str()) && self.hit.chunk_id
            <= other.hit.chunk_id)))
    }
}

/// Fuses ranked lists into one without duplicates, given the fused score of each
/// group that [`gather`] makes of the lists. Returns the best `top_k` hits.
pub fn reciprocal_rank_fusion(lists: &[Vec<Hit>], scores: &[Score], top_k: usize) -> (r: Vec<Hit>)
    requires
        scores@.len() == groups(lists.deep_view()).len(),
    ensures
        r.deep_view() == fusion(lists.deep_view(), scores@, top_k as int),
{
    let gs = gather(lists);
    let ghost gv = gs.deep_view();
    let ghost fv = fused_hits(gv, scores@);
    let mut fused: Vec<Fused> = Vec::new();
    let mut i: usize = 0;
    while i < gs.len()
        invariant
            i <= gs@.len(),
            gv == gs.deep_view(),
            gv.len() == gs@.len(),
            scores@.len() == gv.len(),
            fv == fused_hits(gv, scores@),
            fused@.len() == i,
            forall|k: int| 0 <= k < i ==> (#[trigger] fused@[k]).deep_view() == fv[k],
        decreases gs@.len() - i,
    {
        let g = &gs[i];
        let mut hit = g.hit.clone();
        hit.score = scores[i];
        if g.lists.len() > 1 {
            hit.retrieval = HitSource::Hybrid;
        }
        proof {
            assert(gv[i as int] == g.deep_view());
        }
        fused.push(Fused { hit: hit });
        i = i + 1;
    }
    proof {
        assert(fused.deep_view() =~= fv);
    }
    let ranked = stable_sort(fused);
    let ghost rv = ranked.deep_view();
    let mut r: Vec<Hit> = Vec::new();
    let mut j: usize = 0;
    while j < ranked.len() && j < top_k
        invariant
            j <= ranked@.len(),
            j <= top_k,
            rv == ranked.deep_view(),
            rv.len() == ranked@.len(),
            r@.len() == j,
            forall|k: int| 0 <= k < j ==> (#[trigger] r@[k])@ == rv[k],
        decreases ranked@.len() - j,
    {
        let hit = ranked[j].hit.clone();
        proof {
            assert(rv[j as int] == ranked@[j as int].deep_view());
        }
        r.push(hit);
        j = j + 1;
    }
    proof {
        assert(r.deep_view() =~= first_k(rv, top_k as int));
    }
    r
}

// ── Laws ─────────────────────────────────────────────────────────────────────

/// One of the groups holds the chunk of a hit.
pub open spec fn has_group(gs: Seq<GroupView>, h: HitView) -> bool {
    exists|i: int| 0 <= i < gs.len() && same_chunk((#[trigger] gs[i]).hit, h)
}

/// No two groups hold the same chunk, and each holds a chunk that `seen` knows.
spec fn sound_groups(gs: Seq<GroupView>, seen: spec_fn(HitView) -> bool) -> bool {
    &&& forall|i: int, j: int|
        0 <= i < j < gs.len() ==> !same_chunk((#[trigger] gs[i]).hit, (#[trigger] gs[j]).hit)
    &&& forall|i: int| 0 <= i < gs.len() ==> seen((#[trigger] gs[i]).hit) && gs[i].ranks.len() > 0
}

/// A hit belongs to the group of its chunk, if there is one.
pub proof fn lemma_group_of(gs: Seq<GroupView>, h: HitView)
    ensures
        -1 <= group_of(gs, h) < gs.len(),
        group_of(gs, h) >= 0 ==> same_chunk(gs[group_of(gs, h)].hit, h),
        group_of(gs, h) < 0 ==> forall|i: int|
            0 <= i < gs.len() ==> !same_chunk((#[trigger] gs[i]).hit, h),
    decreases gs.len(),
{
    if gs.len() > 0 && !same_chunk(gs.last().hit, h) {
        let d = gs.drop_last();
        lemma_group_of(d, h);
        assert forall|i: int| group_of(gs, h) < 0 && 0 <= i < gs.len() implies !same_chunk(
            (#[trigger] gs[i]).hit,
            h,
        ) by {
            if i < d.len() {
                assert(gs[i] == d[i]);
            }
        }
    }
}

proof fn lemma_with_hit(
    gs: Seq<GroupView>,
    h: HitView,
    l: usize,
    rank: usize,
    seen: spec_fn(HitView) -> bool,
)
    requires
        sound_groups(gs, seen),
        seen(h),
    ensures
        sound_groups(with_hit(gs, h, l, rank), seen),
        has_group(with_hit(gs, h, l, rank), h),
        with_hit(gs, h, l, rank).len() >= gs.len(),
        forall|i: int|
            0 <= i < gs.len() ==> same_chunk(
                (#[trigger] with_hit(gs, h, l, rank)[i]).hit,
                gs[i].hit,
            ),
{
    lemma_group_of(gs, h);
    let r = with_hit(gs, h, l, rank);
    let p = group_of(gs, h);
    if p < 0 {
        assert(same_chunk(r[gs.len() as int].hit, h));
    } else {
        assert(same_chunk(r[p].hit, h));
    }
    assert forall|i: int, j: int| 0 <= i < j < r.len() implies !same_chunk(
        (#[trigger] r[i]).hit,
        (#[trigger] r[j]).hit,
    ) by {
        if j < gs.len() {
            assert(!same_chunk(gs[i].hit, gs[j].hit));
        } else {
            assert(!same_chunk(gs[i].hit, h));
        }
    }
}

proof fn lemma_with_list(
    gs: Seq<GroupView>,
    list: Seq<HitView>,
    l: usize,
    seen: spec_fn(HitView) -> bool,
)
    requires
        sound_groups(gs, seen),
        forall|i: int| 0 <= i < list.len() ==> seen(#[trigger] list[i]),
    ensures
        sound_groups(with_list(gs, list, l), seen),
        with_list(gs, list, l).len() >= gs.len(),
        forall|i: int|
            0 <= i < gs.len() ==> same_chunk((#[trigger] with_list(gs, list, l)[i]).hit, gs[i].hit),
        forall|k: int| 0 <= k < list.len() ==> has_group(with_list(gs, list, l), #[trigger] list[k]),
    decreases list.len(),
{
    if list.len() > 0 {
        let d = list.drop_last();
        let h = list.last();
        let rank = (list.len() - 1) as usize;
        assert forall|i: int| 0 <= i < d.len() implies seen(#[trigger] d[i]) by {
            assert(seen(list[i]));
        }
        lemma_with_list(gs, d, l, seen);
        let mid = with_list(gs, d, l);
        let r = with_list(gs, list, l);
        assert(seen(list[list.len() - 1]));
        lemma_with_hit(mid, h, l, rank, seen);
        assert forall|k: int| 0 <= k < list.len() implies has_group(r, #[trigger] list[k]) by {
            if k < d.len() {
                assert(d[k] == list[k]);
                let i = choose|i: int|
                    0 <= i < mid.len() && same_chunk((#[trigger] mid[i]).hit, d[k]);
                assert(same_chunk(r[i].hit, list[k]));
            }
        }
        assert forall|i: int| 0 <= i < gs.len() implies same_chunk(
            (#[trigger] r[i]).hit,
            gs[i].hit,
        ) by {
            assert(same_chunk(mid[i].hit, gs[i].hit));
        }
    }
}

/// The hit stands in one of the lists.
pub open spec fn listed(lists: Seq<Seq<HitView>>, h: HitView) -> bool {
    exists|l: int, i: int|
        0 <= l < lists.len() && 0 <= i < lists[l].len() && #[trigger] lists[l][i] == h
}

/// The hit is that of a group and stands in one of the lists, but for its fused
/// score and its provenance.
pub open spec fn fused_from(lists: Seq<Seq<HitView>>, scores: Seq<Score>, h: HitView) -> bool {
    exists|g: int|
        0 <= g < groups(lists).len() && h == fused_hit(#[trigger] groups(lists)[g], scores[g])
            && listed(lists, groups(lists)[g].hit)
}

proof fn lemma_groups(
    lists: Seq<Seq<HitView>>,
    all: Seq<Seq<HitView>>,
    seen: spec_fn(HitView) -> bool,
)
    requires
        lists.len() <= all.len(),
        lists == all.take(lists.len() as int),
        seen == (|h: HitView| listed(all, h)),
    ensures
        sound_groups(groups(lists), seen),
        forall|l: int, k: int|
            0 <= l < lists.len() && 0 <= k < lists[l].len() ==> has_group(
                groups(lists),
                #[trigger] lists[l][k],
            ),
    decreases lists.len(),
{
    if lists.len() > 0 {
        let d = lists.drop_last();
        let list = lists.last();
        assert(d =~= all.take(d.len() as int));
        lemma_groups(d, all, seen);
        assert forall|i: int| 0 <= i < list.len() implies seen(#[trigger] list[i]) by {
            assert(all[lists.len() - 1][i] == list[i]);
        }
        lemma_with_list(groups(d), list, (lists.len() - 1) as usize, seen);
        let before = groups(d);
        let r = groups(lists);
        assert forall|l: int, k: int|
            0 <= l < lists.len() && 0 <= k < lists[l].len() implies has_group(
            r,
            #[trigger] lists[l][k],
        ) by {
            if l < d.len() {
                assert(d[l][k] == lists[l][k]);
                let i = choose|i: int|
                    0 <= i < before.len() && same_chunk((#[trigger] before[i]).hit, d[l][k]);
                assert(same_chunk(r[i].hit, lists[l][k]));
            } else {
                assert(list[k] == lists[l][k]);
            }
        }
    }
}

/// Gathering merges the hits of each chunk into one group, loses no chunk, and
/// makes none up.
pub proof fn gathering_merges_duplicates(lists: Seq<Seq<HitView>>)
    ensures
        forall|i: int, j: int|
            0 <= i < j < groups(lists).len() ==> !same_chunk(
                (#[trigger] groups(lists)[i]).hit,
                (#[trigger] groups(lists)[j]).hit,
            ),
        forall|i: int| 0 <= i < groups(lists).len() ==> listed(lists, (#[trigger] groups(lists)[i]).hit),
        forall|l: int, k: int|
            0 <= l < lists.len() && 0 <= k < lists[l].len() ==> has_group(
                groups(lists),
                #[trigger] lists[l][k],
            ),
{
    assert(lists =~= lists.take(lists.len() as int));
    let seen = |h: HitView| listed(lists, h);
    lemma_groups(lists, lists, seen);
    assert forall|i: int| 0 <= i < groups(lists).len() implies listed(
        lists,
        (#[trigger] groups(lists)[i]).hit,
    ) by {
        assert(seen(groups(lists)[i].hit));
    }
}

/// Any two fused hits can be put in order.
pub proof fn lemma_fused_order()
    ensures
        is_order(fused_order()),
{
    let le = fused_order();
    assert forall|a: HitView, b: HitView| #[trigger] le(a, b) || le(b, a) by {
        lemma_text_before_total(a.source, b.source);
    }
    assert forall|a: HitView, b: HitView, c: HitView| #[trigger]
        le(a, b) && #[trigger] le(b, c) implies le(a, c) by {
        if text_before(a.source, b.source) && text_before(b.source, c.source) {
            lemma_text_before_trans(a.source, b.source, c.source);
        }
    }
}

/// Sorting what has no duplicates leaves none, and makes nothing up.
proof fn lemma_sorted_distinct(raw: Seq<HitView>)
    requires
        raw.no_duplicates(),
    ensures
        sorted_by(raw, fused_order()).no_duplicates(),
        sorted_by(raw, fused_order()).len() == raw.len(),
        in_order(sorted_by(raw, fused_order()), fused_order()),
        forall|i: int|
            0 <= i < raw.len() ==> raw.contains(#[trigger] sorted_by(raw, fused_order())[i]),
{
    let all = sorted_by(raw, fused_order());
    lemma_fused_order();
    sorting_orders_and_keeps(raw, fused_order());
    raw.lemma_multiset_has_no_duplicates();
    all.lemma_multiset_has_no_duplicates_conv();
    assert forall|i: int| 0 <= i < raw.len() implies raw.contains(#[trigger] all[i]) by {
        broadcast use vstd::seq_lib::group_to_multiset_ensures;

        assert(all.contains(all[i]));
        assert(all.to_multiset().count(all[i]) > 0);
        assert(raw.to_multiset().count(all[i]) > 0);
    }
}

/// One of the hits of a list is of the chunk of `h`.
pub open spec fn holds(list: Seq<HitView>, h: HitView) -> bool {
    exists|k: int| 0 <= k < list.len() && same_chunk(#[trigger] list[k], h)
}

/// Place `r` is the first one that the chunk of `h` takes in a list.
pub open spec fn first_place(list: Seq<HitView>, h: HitView, r: int) -> bool {
    &&& 0 <= r < list.len()
    &&& same_chunk(list[r], h)
    &&& forall|k: int| 0 <= k < r ==> !same_chunk(#[trigger] list[k], h)
}

/// Every group records the first place of its chunk in each list that holds it.
pub open spec fn placed(gs: Seq<GroupView>, lists: Seq<Seq<HitView>>) -> bool {
    forall|i: int|
        0 <= i < gs.len() ==> {
            let g = #[trigger] gs[i];
            &&& g.ranks.len() == g.lists.len()
            &&& forall|a: int|
                0 <= a < g.lists.len() ==> first_place(
                    lists[#[trigger] g.lists[a] as int],
                    g.hit,
                    g.ranks[a] as int,
                )
        }
}

/// Every group records the lists that hold its chunk, each once, in increasing
/// order.
pub open spec fn marked(gs: Seq<GroupView>, lists: Seq<Seq<HitView>>) -> bool {
    &&& forall|i: int, a: int, b: int|
        0 <= i < gs.len() && 0 <= a < b < gs[i].lists.len() ==> #[trigger] gs[i].lists[a]
            < #[trigger] gs[i].lists[b]
    &&& forall|i: int, l: usize|
        0 <= i < gs.len() ==> (#[trigger] gs[i].lists.contains(l) <==> l < lists.len() && holds(
            lists[l as int],
            gs[i].hit,
        ))
}

/// Lists in increasing order, with list `l` added unless it is the last of them.
spec fn with_mark(lists: Seq<usize>, l: usize) -> Seq<usize> {
    if lists.len() > 0 && lists.last() == l {
        lists
    } else {
        lists.push(l)
    }
}

proof fn lemma_mark(m: Seq<usize>, l: usize, x: usize)
    requires
        forall|a: int, b: int| 0 <= a < b < m.len() ==> #[trigger] m[a] < #[trigger] m[b],
        forall|a: int| 0 <= a < m.len() ==> #[trigger] m[a] <= l,
    ensures
        forall|a: int, b: int|
            0 <= a < b < with_mark(m, l).len() ==> #[trigger] with_mark(m, l)[a]
                < #[trigger] with_mark(m, l)[b],
        with_mark(m, l).contains(x) <==> m.contains(x) || x == l,
{
    let r = with_mark(m, l);
    if m.len() > 0 && m.last() == l {
        assert(m[m.len() - 1] == l);
        assert(m.contains(l));
    } else {
        assert(r[m.len() as int] == l);
        if m.contains(x) {
            let k = choose|k: int| 0 <= k < m.len() && m[k] == x;
            assert(r[k] == x);
        }
        if r.contains(x) && x != l {
            let k = choose|k: int| 0 <= k < r.len() && r[k] == x;
            assert(m[k] == x);
        }
        assert forall|a: int, b: int| 0 <= a < b < r.len() implies #[trigger] r[a]
            < #[trigger] r[b] by {
            if b == m.len() {
                assert(m[a] <= m[m.len() - 1]);
            }
        }
    }
}

/// Every hit of the lists has its group.
spec fn complete(gs: Seq<GroupView>, lists: Seq<Seq<HitView>>) -> bool {
    forall|l: int, k: int|
        0 <= l < lists.len() && 0 <= k < lists[l].len() ==> has_group(gs, #[trigger] lists[l][k])
}

/// The lists `d`, then what has been read of the next one.
spec fn read(d: Seq<Seq<HitView>>, list: Seq<HitView>) -> Seq<Seq<HitView>> {
    d.push(list)
}

proof fn lemma_marked_hit(
    gs: Seq<GroupView>,
    d: Seq<Seq<HitView>>,
    list: Seq<HitView>,
    h: HitView,
    rank: usize,
    seen: spec_fn(HitView) -> bool,
)
    requires
        d.len() < usize::MAX,
        sound_groups(gs, seen),
        complete(gs, read(d, list)),
        marked(gs, read(d, list)),
    ensures
        marked(with_hit(gs, h, d.len() as usize, rank), read(d, list.push(h))),
{
    let l = d.len() as usize;
    let old_lists = read(d, list);
    let new_lists = read(d, list.push(h));
    let r = with_hit(gs, h, l, rank);
    let p = group_of(gs, h);
    lemma_group_of(gs, h);
    assert forall|i: int, x: usize| 0 <= i < r.len() implies (#[trigger] r[i].lists.contains(x)
        <==> x < new_lists.len() && holds(new_lists[x as int], r[i].hit)) by {
        let hit = r[i].hit;
        if i < gs.len() {
            assert(same_chunk(hit, gs[i].hit));
            assert(gs[i].lists.contains(x) <==> x < old_lists.len() && holds(
                old_lists[x as int],
                gs[i].hit,
            ));
            if x < l {
                assert(new_lists[x as int] == d[x as int] && old_lists[x as int] == d[x as int]);
                lemma_holds_same(d[x as int], hit, gs[i].hit);
            }
            if x == l {
                assert(new_lists[x as int] == list.push(h) && old_lists[x as int] == list);
                lemma_holds_push(list, h, hit);
                lemma_holds_same(list, hit, gs[i].hit);
                if i != p {
                    assert(!same_chunk(h, gs[i].hit)) by {
                        if p >= 0 {
                            if i < p {
                                assert(!same_chunk(gs[i].hit, gs[p].hit));
                            } else {
                                assert(!same_chunk(gs[p].hit, gs[i].hit));
                            }
                        } else {
                            assert(!same_chunk(gs[i].hit, h));
                        }
                    }
                }
            }
            if i == p {
                lemma_marks_below(gs, old_lists, i);
                lemma_mark(gs[i].lists, l, x);
            }
        } else {
            assert(r[i].lists =~= seq![l]);
            assert(r[i].lists.contains(x) <==> x == l) by {
                assert(r[i].lists[0] == l);
            }
            if x < l {
                assert(new_lists[x as int] == d[x as int]);
                if holds(d[x as int], h) {
                    let k = choose|k: int|
                        0 <= k < d[x as int].len() && same_chunk(#[trigger] d[x as int][k], h);
                    assert(old_lists[x as int][k] == d[x as int][k]);
                    assert(has_group(gs, old_lists[x as int][k]));
                    let g = choose|g: int|
                        0 <= g < gs.len() && same_chunk(
                            (#[trigger] gs[g]).hit,
                            old_lists[x as int][k],
                        );
                    assert(same_chunk(gs[g].hit, h));
                }
            }
            if x == l {
                assert(new_lists[x as int] == list.push(h));
                lemma_holds_push(list, h, h);
            }
        }
    }
    assert forall|i: int, a: int, b: int|
        0 <= i < r.len() && 0 <= a < b < r[i].lists.len() implies #[trigger] r[i].lists[a]
        < #[trigger] r[i].lists[b] by {
        if i == p {
            lemma_marks_below(gs, old_lists, i);
            lemma_mark(gs[i].lists, l, l);
        } else if i < gs.len() {
            assert(gs[i].lists[a] < gs[i].lists[b]);
        }
    }
}

proof fn lemma_placed_hit(
    gs: Seq<GroupView>,
    d: Seq<Seq<HitView>>,
    list: Seq<HitView>,
    h: HitView,
    seen: spec_fn(HitView) -> bool,
)
    requires
        d.len() < usize::MAX,
        list.len() < usize::MAX,
        sound_groups(gs, seen),
        complete(gs, read(d, list)),
        marked(gs, read(d, list)),
        placed(gs, read(d, list)),
    ensures
        placed(
            with_hit(gs, h, d.len() as usize, list.len() as usize),
            read(d, list.push(h)),
        ),
{
    let l = d.len() as usize;
    let rank = list.len() as usize;
    let old_lists = read(d, list);
    let new_lists = read(d, list.push(h));
    let r = with_hit(gs, h, l, rank);
    let p = group_of(gs, h);
    lemma_group_of(gs, h);
    assert forall|i: int| 0 <= i < r.len() implies {
        let g = #[trigger] r[i];
        &&& g.ranks.len() == g.lists.len()
        &&& forall|a: int|
            0 <= a < g.lists.len() ==> first_place(
                new_lists[#[trigger] g.lists[a] as int],
                g.hit,
                g.ranks[a] as int,
            )
    } by {
        let g = r[i];
        if i < gs.len() {
            assert(gs[i].ranks.len() == gs[i].lists.len());
            lemma_marks_below(gs, old_lists, i);
        }
        assert forall|a: int| 0 <= a < g.lists.len() implies first_place(
            new_lists[#[trigger] g.lists[a] as int],
            g.hit,
            g.ranks[a] as int,
        ) by {
            if i < gs.len() && a < gs[i].lists.len() {
                let x = gs[i].lists[a] as int;
                assert(g.lists[a] == gs[i].lists[a]);
                assert(first_place(old_lists[x], gs[i].hit, gs[i].ranks[a] as int));
                lemma_place_kept(old_lists, new_lists, x, gs[i].hit, g.hit, gs[i].ranks[a] as int);
            } else {
                assert(g.lists[a] == l && g.ranks[a] == rank);
                assert(!holds(list, h)) by {
                    if i < gs.len() {
                        assert(old_lists[l as int] == list);
                        if gs[i].lists.contains(l) {
                            let k = choose|k: int|
                                0 <= k < gs[i].lists.len() && gs[i].lists[k] == l;
                            assert(gs[i].lists[k] <= gs[i].lists[gs[i].lists.len() - 1]);
                        }
                        lemma_holds_same(list, gs[i].hit, h);
                    } else if holds(list, h) {
                        let k = choose|k: int|
                            0 <= k < list.len() && same_chunk(#[trigger] list[k], h);
                        assert(old_lists[l as int][k] == list[k]);
                        assert(has_group(gs, old_lists[l as int][k]));
                        let m = choose|m: int|
                            0 <= m < gs.len() && same_chunk(
                                (#[trigger] gs[m]).hit,
                                old_lists[l as int][k],
                            );
                        assert(same_chunk(gs[m].hit, h));
                    }
                }
                let now = list.push(h);
                assert(new_lists[l as int] == now);
                assert forall|k: int| 0 <= k < rank implies !same_chunk(
                    #[trigger] now[k],
                    g.hit,
                ) by {
                    assert(now[k] == list[k]);
                    if same_chunk(list[k], g.hit) {
                        assert(same_chunk(list[k], h));
                    }
                }
                assert(same_chunk(now[rank as int], g.hit));
            }
        }
    }
}

proof fn lemma_place_kept(
    old_lists: Seq<Seq<HitView>>,
    new_lists: Seq<Seq<HitView>>,
    x: int,
    a: HitView,
    b: HitView,
    r: int,
)
    requires
        same_chunk(a, b),
        first_place(old_lists[x], a, r),
        new_lists[x].len() >= old_lists[x].len(),
        forall|k: int|
            0 <= k < old_lists[x].len() ==> #[trigger] new_lists[x][k] == old_lists[x][k],
    ensures
        first_place(new_lists[x], b, r),
{
    assert(new_lists[x][r] == old_lists[x][r]);
    assert forall|k: int| 0 <= k < r implies !same_chunk(#[trigger] new_lists[x][k], b) by {
        assert(!same_chunk(old_lists[x][k], a));
    }
}

proof fn lemma_holds_same(list: Seq<HitView>, a: HitView, b: HitView)
    requires
        same_chunk(a, b),
    ensures
        holds(list, a) <==> holds(list, b),
{
    if holds(list, a) {
        let k = choose|k: int| 0 <= k < list.len() && same_chunk(#[trigger] list[k], a);
        assert(same_chunk(list[k], b));
    }
    if holds(list, b) {
        let k = choose|k: int| 0 <= k < list.len() && same_chunk(#[trigger] list[k], b);
        assert(same_chunk(list[k], a));
    }
}

proof fn lemma_holds_push(list: Seq<HitView>, h: HitView, x: HitView)
    ensures
        holds(list.push(h), x) <==> holds(list, x) || same_chunk(h, x),
{
    let r = list.push(h);
    if holds(list, x) {
        let k = choose|k: int| 0 <= k < list.len() && same_chunk(#[trigger] list[k], x);
        assert(same_chunk(r[k], x));
    }
    if same_chunk(h, x) {
        assert(same_chunk(r[list.len() as int], x));
    }
    if holds(r, x) && !same_chunk(h, x) {
        let k = choose|k: int| 0 <= k < r.len() && same_chunk(#[trigger] r[k], x);
        assert(same_chunk(list[k], x));
    }
}

proof fn lemma_marks_below(gs: Seq<GroupView>, lists: Seq<Seq<HitView>>, i: int)
    requires
        marked(gs, lists),
        lists.len() > 0,
        0 <= i < gs.len(),
    ensures
        forall|a: int| 0 <= a < gs[i].lists.len() ==> #[trigger] gs[i].lists[a] < lists.len(),
{
    assert forall|a: int| 0 <= a < gs[i].lists.len() implies #[trigger] gs[i].lists[a]
        < lists.len() by {
        assert(gs[i].lists.contains(gs[i].lists[a]));
    }
}

proof fn lemma_marked_list(
    gs: Seq<GroupView>,
    d: Seq<Seq<HitView>>,
    list: Seq<HitView>,
    seen: spec_fn(HitView) -> bool,
)
    requires
        d.len() < usize::MAX,
        sound_groups(gs, seen),
        complete(gs, d),
        marked(gs, d),
        placed(gs, d),
        list.len() <= usize::MAX,
        forall|i: int| 0 <= i < list.len() ==> seen(#[trigger] list[i]),
    ensures
        marked(with_list(gs, list, d.len() as usize), read(d, list)),
        placed(with_list(gs, list, d.len() as usize), read(d, list)),
    decreases list.len(),
{
    let l = d.len() as usize;
    if list.len() == 0 {
        let all = read(d, list);
        assert forall|i: int, x: usize| 0 <= i < gs.len() implies (
        #[trigger] gs[i].lists.contains(x) <==> x < all.len() && holds(
            all[x as int],
            gs[i].hit,
        )) by {
            assert(gs[i].lists.contains(x) <==> x < d.len() && holds(d[x as int], gs[i].hit));
            if x < l {
                assert(all[x as int] == d[x as int]);
            }
        }
        assert forall|i: int| 0 <= i < gs.len() implies {
            let g = #[trigger] gs[i];
            &&& g.ranks.len() == g.lists.len()
            &&& forall|a: int|
                0 <= a < g.lists.len() ==> first_place(
                    all[#[trigger] g.lists[a] as int],
                    g.hit,
                    g.ranks[a] as int,
                )
        } by {
            let g = gs[i];
            assert(g.ranks.len() == g.lists.len());
            assert forall|a: int| 0 <= a < g.lists.len() implies first_place(
                all[#[trigger] g.lists[a] as int],
                g.hit,
                g.ranks[a] as int,
            ) by {
                assert(gs[i].lists.contains(g.lists[a]));
                assert(all[g.lists[a] as int] == d[g.lists[a] as int]);
            }
        }
    } else {
        let before = list.drop_last();
        assert forall|i: int| 0 <= i < before.len() implies seen(#[trigger] before[i]) by {
            assert(seen(list[i]));
        }
        lemma_marked_list(gs, d, before, seen);
        lemma_with_list(gs, before, l, seen);
        let mid = with_list(gs, before, l);
        let all = read(d, before);
        assert forall|m: int, k: int| 0 <= m < all.len() && 0 <= k < all[m].len() implies has_group(
            mid,
            #[trigger] all[m][k],
        ) by {
            if m < d.len() {
                assert(all[m][k] == d[m][k]);
                assert(has_group(gs, d[m][k]));
                let g = choose|g: int|
                    0 <= g < gs.len() && same_chunk((#[trigger] gs[g]).hit, d[m][k]);
                assert(same_chunk(mid[g].hit, d[m][k]));
            } else {
                assert(all[m][k] == before[k]);
            }
        }
        assert(before.push(list.last()) =~= list);
        lemma_marked_hit(mid, d, before, list.last(), (list.len() - 1) as usize, seen);
        lemma_placed_hit(mid, d, before, list.last(), seen);
    }
}

proof fn lemma_marked(
    lists: Seq<Seq<HitView>>,
    all: Seq<Seq<HitView>>,
    seen: spec_fn(HitView) -> bool,
)
    requires
        lists.len() <= usize::MAX,
        lists.len() <= all.len(),
        lists == all.take(lists.len() as int),
        seen == (|h: HitView| listed(all, h)),
        forall|l: int| 0 <= l < all.len() ==> (#[trigger] all[l]).len() <= usize::MAX,
    ensures
        marked(groups(lists), lists),
        placed(groups(lists), lists),
    decreases lists.len(),
{
    if lists.len() > 0 {
        let d = lists.drop_last();
        let list = lists.last();
        assert(d =~= all.take(d.len() as int));
        lemma_marked(d, all, seen);
        lemma_groups(d, all, seen);
        assert forall|i: int| 0 <= i < list.len() implies seen(#[trigger] list[i]) by {
            assert(all[lists.len() - 1][i] == list[i]);
        }
        assert(all[lists.len() - 1].len() <= usize::MAX);
        lemma_marked_list(groups(d), d, list, seen);
        assert(read(d, list) =~= lists);
    }
}

/// Every group records exactly the lists that hold its chunk and the first place of
/// the chunk in each of them, so that each list counts once; and its fused hit is a
/// hybrid one if and only if two lists hold the chunk. That of a chunk that one
/// list alone holds, be it once or several times, keeps its provenance.
pub proof fn only_several_layers_make_a_hybrid(
    lists: Seq<Seq<HitView>>,
    g: int,
    score: Score,
)
    requires
        lists.len() <= usize::MAX,
        forall|l: int| 0 <= l < lists.len() ==> (#[trigger] lists[l]).len() <= usize::MAX,
        0 <= g < groups(lists).len(),
    ensures
        marked(groups(lists), lists),
        placed(groups(lists), lists),
        groups(lists)[g].lists.len() > 1 <==> exists|l: int, m: int|
            0 <= l < m < lists.len() && #[trigger] holds(lists[l], groups(lists)[g].hit)
                && #[trigger] holds(lists[m], groups(lists)[g].hit),
        groups(lists)[g].lists.len() > 1 ==> fused_hit(groups(lists)[g], score).retrieval
            == HitSource::Hybrid,
        groups(lists)[g].lists.len() <= 1 ==> fused_hit(groups(lists)[g], score).retrieval
            == groups(lists)[g].hit.retrieval,
{
    assert(lists =~= lists.take(lists.len() as int));
    let seen = |h: HitView| listed(lists, h);
    lemma_marked(lists, lists, seen);
    let gs = groups(lists);
    let m = gs[g].lists;
    let h = gs[g].hit;
    if m.len() > 1 {
        assert(m.contains(m[0]) && m.contains(m[1]));
        assert(gs[g].lists[0] < gs[g].lists[1]);
        assert(holds(lists[m[0] as int], h) && holds(lists[m[1] as int], h));
    }
    if exists|a: int, b: int|
        0 <= a < b < lists.len() && #[trigger] holds(lists[a], h) && #[trigger] holds(
            lists[b],
            h,
        ) {
        let (a, b) = choose|a: int, b: int|
            0 <= a < b < lists.len() && #[trigger] holds(lists[a], h) && #[trigger] holds(
                lists[b],
                h,
            );
        assert(gs[g].lists.contains(a as usize) && gs[g].lists.contains(b as usize));
        let i = choose|i: int| 0 <= i < m.len() && m[i] == a as usize;
        let j = choose|j: int| 0 <= j < m.len() && m[j] == b as usize;
        assert(i != j);
    }
}

/// Fusion returns at most `top_k` hits and no chunk twice, in order, and each is
/// a hit of one of the lists but for its score and provenance.
pub proof fn fusion_ranks_without_duplicates(
    lists: Seq<Seq<HitView>>,
    scores: Seq<Score>,
    top_k: int,
)
    requires
        top_k >= 0,
        scores.len() == groups(lists).len(),
    ensures
        fusion(lists, scores, top_k).len() <= top_k,
        top_k >= groups(lists).len() ==> fusion(lists, scores, top_k).len() == groups(lists).len(),
        in_order(fusion(lists, scores, top_k), fused_order()),
        forall|i: int, j: int|
            0 <= i < j < fusion(lists, scores, top_k).len() ==> !same_chunk(
                #[trigger] fusion(lists, scores, top_k)[i],
                #[trigger] fusion(lists, scores, top_k)[j],
            ),
        forall|i: int|
            0 <= i < fusion(lists, scores, top_k).len() ==> fused_from(
                lists,
                scores,
                #[trigger] fusion(lists, scores, top_k)[i],
            ),
{
    let all = sorted_by(fused_hits(groups(lists), scores), fused_order());
    let top = fusion(lists, scores, top_k);
    lemma_all_fused(lists, scores);
    assert forall|i: int, j: int| 0 <= i < j < top.len() implies fused_order()(
        #[trigger] top[i],
        #[trigger] top[j],
    ) by {
        assert(fused_order()(all[i], all[j]));
    }
    assert forall|i: int, j: int| 0 <= i < j < top.len() implies !same_chunk(
        #[trigger] top[i],
        #[trigger] top[j],
    ) by {
        lemma_fused_apart(lists, scores, i, j);
    }
    assert forall|i: int| 0 <= i < top.len() implies fused_from(
        lists,
        scores,
        #[trigger] top[i],
    ) by {
        lemma_fused_source(lists, scores, i);
    }
}

proof fn lemma_all_fused(lists: Seq<Seq<HitView>>, scores: Seq<Score>)
    requires
        scores.len() == groups(lists).len(),
    ensures
        ({
            let raw = fused_hits(groups(lists), scores);
            let all = sorted_by(raw, fused_order());
            &&& all.no_duplicates()
            &&& all.len() == raw.len()
            &&& in_order(all, fused_order())
            &&& forall|i: int| 0 <= i < all.len() ==> raw.contains(#[trigger] all[i])
        }),
{
    let gs = groups(lists);
    let raw = fused_hits(gs, scores);
    gathering_merges_duplicates(lists);
    assert forall|i: int, j: int| 0 <= i < j < raw.len() implies raw[i] != raw[j] by {
        assert(!same_chunk(gs[i].hit, gs[j].hit));
    }
    assert(raw.no_duplicates());
    lemma_sorted_distinct(raw);
}

proof fn lemma_fused_apart(lists: Seq<Seq<HitView>>, scores: Seq<Score>, i: int, j: int)
    requires
        scores.len() == groups(lists).len(),
        0 <= i < j < sorted_by(fused_hits(groups(lists), scores), fused_order()).len(),
    ensures
        !same_chunk(
            sorted_by(fused_hits(groups(lists), scores), fused_order())[i],
            sorted_by(fused_hits(groups(lists), scores), fused_order())[j],
        ),
{
    let gs = groups(lists);
    let raw = fused_hits(gs, scores);
    let all = sorted_by(raw, fused_order());
    lemma_all_fused(lists, scores);
    gathering_merges_duplicates(lists);
    assert(raw.contains(all[i]) && raw.contains(all[j]));
    let g = choose|g: int| 0 <= g < raw.len() && raw[g] == all[i];
    let m = choose|m: int| 0 <= m < raw.len() && raw[m] == all[j];
    assert(all[i] != all[j]);
    assert(g != m);
    if g < m {
        assert(!same_chunk(gs[g].hit, gs[m].hit));
    } else {
        assert(!same_chunk(gs[m].hit, gs[g].hit));
    }
}

proof fn lemma_fused_source(lists: Seq<Seq<HitView>>, scores: Seq<Score>, i: int)
    requires
        scores.len() == groups(lists).len(),
        0 <= i < sorted_by(fused_hits(groups(lists), scores), fused_order()).len(),
    ensures
        fused_from(lists, scores, sorted_by(fused_hits(groups(lists), scores), fused_order())[i]),
{
    let gs = groups(lists);
    let raw = fused_hits(gs, scores);
    let all = sorted_by(raw, fused_order());
    lemma_all_fused(lists, scores);
    gathering_merges_duplicates(lists);
    assert(raw.contains(all[i]));
    let g = choose|g: int| 0 <= g < raw.len() && raw[g] == all[i];
    assert(listed(lists, gs[g].hit));
}

/// A chunk that only one layer found still contributes: where enough hits are
/// asked for, every chunk of every list is among the fused hits.
pub proof fn fusion_loses_no_chunk(
    lists: Seq<Seq<HitView>>,
    scores: Seq<Score>,
    top_k: int,
    l: int,
    k: int,
)
    requires
        scores.len() == groups(lists).len(),
        top_k >= groups(lists).len(),
        0 <= l < lists.len(),
        0 <= k < lists[l].len(),
    ensures
        exists|i: int|
            0 <= i < fusion(lists, scores, top_k).len() && same_chunk(
                #[trigger] fusion(lists, scores, top_k)[i],
                lists[l][k],
            ),
{
    broadcast use vstd::seq_lib::group_to_multiset_ensures;

    let gs = groups(lists);
    let raw = fused_hits(gs, scores);
    let all = sorted_by(raw, fused_order());
    gathering_merges_duplicates(lists);
    lemma_all_fused(lists, scores);
    assert(has_group(gs, lists[l][k]));
    let g = choose|g: int| 0 <= g < gs.len() && same_chunk((#[trigger] gs[g]).hit, lists[l][k]);
    lemma_fused_order();
    sorting_orders_and_keeps(raw, fused_order());
    assert(raw.contains(raw[g]));
    assert(raw.to_multiset().count(raw[g]) > 0);
    assert(all.to_multiset().count(raw[g]) > 0);
    assert(all.contains(raw[g]));
    let i = choose|i: int| 0 <= i < all.len() && all[i] == raw[g];
    assert(fusion(lists, scores, top_k)[i] == raw[g]);
}

} // verus!
