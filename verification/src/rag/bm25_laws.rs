//! What holds of terms, of counts and of searches by keyword.
use vstd::prelude::*;
use vstd::utf8::is_ascii_chars;

use crate::order::{
    first_k, in_order, is_order, sorted_by, sorting_keeps_ties_in_place, sorting_orders_and_keeps,
};
use crate::rag::bm25::{
    by_score, found, hit_of, holders, indexed, lemma_scored_len, query_terms, scored, shares, terms,
    DocView,
};
use crate::rag::laws::{lemma_filter_multiset, lemma_map_multiset};
use crate::rag::score::Score;
use crate::rag::store::lemma_filter_all;
use crate::rag::types::HitView;
use crate::text::{
    alnum_mask, ascii_alnum, ascii_lower_char, join, lemma_run_len, lowered, run_len, runs,
};
use crate::words::{lemma_run_bounds, lemma_runs_split};

verus! {

// ── Terms ────────────────────────────────────────────────────────────────────

/// One ASCII character in upper case.
pub open spec fn ascii_upper_char(c: char) -> char {
    if 'a' <= c <= 'z' {
        ((c as u32) - 32) as char
    } else {
        c
    }
}

/// A text of ASCII characters in upper case.
pub open spec fn ascii_upper(s: Seq<char>) -> Seq<char> {
    s.map_values(|c: char| ascii_upper_char(c))
}

/// A text of ASCII characters has the same terms in upper case.
pub proof fn case_does_not_matter(text: Seq<char>)
    requires
        is_ascii_chars(text),
    ensures
        terms(ascii_upper(text)) == terms(text),
{
    let up = ascii_upper(text);
    assert(is_ascii_chars(up));
    assert(lowered(up) =~= lowered(text));
}

/// A small letter of ASCII, or a digit.
spec fn plain_char(c: char) -> bool {
    'a' <= c <= 'z' || '0' <= c <= '9'
}

/// A text of small letters of ASCII and digits that is not empty.
spec fn plain_word(w: Seq<char>) -> bool {
    w.len() > 0 && forall|i: int| 0 <= i < w.len() ==> plain_char(#[trigger] w[i])
}

proof fn lemma_plain_runs(s: Seq<char>, m: Seq<bool>)
    requires
        s.len() == m.len(),
        forall|i: int| 0 <= i < m.len() && #[trigger] m[i] ==> plain_char(s[i]),
    ensures
        forall|k: int| 0 <= k < runs(s, m).len() ==> plain_word(#[trigger] runs(s, m)[k]),
    decreases m.len(),
{
    if m.len() == 0 {
        assert(runs(s, m).len() == 0);
    } else if !m.first() {
        let s1 = s.drop_first();
        let m1 = m.drop_first();
        assert forall|i: int| 0 <= i < m1.len() && #[trigger] m1[i] implies plain_char(s1[i]) by {
            assert(m[i + 1]);
        }
        lemma_plain_runs(s1, m1);
        assert(runs(s, m) == runs(s1, m1));
    } else {
        lemma_run_bounds(m);
        lemma_run_len(m);
        let n = run_len(m) as int;
        let s1 = s.skip(n);
        let m1 = m.skip(n);
        assert forall|i: int| 0 <= i < m1.len() && #[trigger] m1[i] implies plain_char(s1[i]) by {
            assert(m[i + n]);
        }
        lemma_plain_runs(s1, m1);
        assert(n > 0) by {
            assert(m[0]);
        }
        let w = s.take(n);
        assert forall|i: int| 0 <= i < w.len() implies plain_char(#[trigger] w[i]) by {
            assert(m[i]);
        }
        let all = runs(s, m);
        assert forall|k: int| 0 <= k < all.len() implies plain_word(#[trigger] all[k]) by {
            assert(all == seq![w] + runs(s1, m1));
            if k > 0 {
                assert(all[k] == runs(s1, m1)[k - 1]);
            } else {
                assert(all[k] == w);
            }
        }
    }
}

proof fn lemma_plain_terms(text: Seq<char>)
    requires
        is_ascii_chars(text),
    ensures
        forall|k: int| 0 <= k < terms(text).len() ==> plain_word(#[trigger] terms(text)[k])
            && indexed(terms(text)[k]),
{
    let low = lowered(text);
    let m = alnum_mask(low);
    let p = |w: Seq<char>| indexed(w);
    let rs = runs(low, m);
    assert forall|i: int| 0 <= i < m.len() && #[trigger] m[i] implies plain_char(low[i]) by {
        assert(low[i] == ascii_lower_char(text[i]));
        assert((low[i] as u32) < 128);
        assert(ascii_alnum(low[i]));
    }
    lemma_plain_runs(low, m);
    let ts = rs.filter(p);
    assert forall|k: int| 0 <= k < ts.len() implies plain_word(#[trigger] ts[k]) && indexed(
        ts[k],
    ) by {
        assert(ts.contains(ts[k]));
        rs.lemma_filter_contains_rev(p, ts[k]);
        rs.lemma_filter_pred(p, k);
        let j = choose|j: int| 0 <= j < rs.len() && rs[j] == ts[k];
        assert(plain_word(rs[j]));
    }
}

proof fn lemma_one_run(w: Seq<char>)
    requires
        plain_word(w),
    ensures
        runs(w, alnum_mask(w)) == seq![w],
{
    let m = alnum_mask(w);
    assert forall|i: int| 0 <= i < m.len() implies #[trigger] m[i] by {
        assert(plain_char(w[i]));
    }
    lemma_run_bounds(m);
    lemma_run_len(m);
    let n = run_len(m) as int;
    assert(n == w.len()) by {
        if n < m.len() {
            assert(m[n]);
        }
    }
    assert(w.take(n) =~= w);
    assert(m[0]);
    assert(m.first());
    let rest = runs(w.skip(n), m.skip(n));
    assert(rest.len() == 0);
    assert(runs(w, m) == seq![w] + rest);
    assert(seq![w] + rest =~= seq![w]);
}

proof fn lemma_joined_runs(ts: Seq<Seq<char>>)
    requires
        forall|k: int| 0 <= k < ts.len() ==> plain_word(#[trigger] ts[k]),
    ensures
        runs(join(ts, " "@), alnum_mask(join(ts, " "@))) == ts,
        is_ascii_chars(join(ts, " "@)),
        lowered(join(ts, " "@)) == join(ts, " "@),
    decreases ts.len(),
{
    reveal_strlit(" ");
    let j = join(ts, " "@);
    if ts.len() == 0 {
        assert(runs(j, alnum_mask(j)) =~= ts);
    } else if ts.len() == 1 {
        lemma_one_run(ts[0]);
        assert(seq![ts[0]] =~= ts);
        assert forall|i: int| 0 <= i < j.len() implies plain_char(#[trigger] j[i]) by {
            assert(plain_char(ts[0][i]));
        }
    } else {
        let d = ts.drop_last();
        let w = ts.last();
        assert forall|k: int| 0 <= k < d.len() implies plain_word(#[trigger] d[k]) by {
            assert(d[k] == ts[k]);
        }
        lemma_joined_runs(d);
        assert(plain_word(ts[ts.len() - 1]));
        lemma_one_run(w);
        let a = join(d, " "@);
        let m = alnum_mask(j);
        let n = a.len() as int;
        assert(j[n] == ' ');
        assert(!m[n]);
        lemma_runs_split(j, m, n);
        assert(j.take(n) =~= a);
        assert(m.take(n) =~= alnum_mask(a));
        let t = j.skip(n);
        let mt = m.skip(n);
        assert(!mt.first());
        assert(t.drop_first() =~= w);
        assert(mt.drop_first() =~= alnum_mask(w));
        assert(d + seq![w] =~= ts);
        assert forall|i: int| 0 <= i < j.len() implies (#[trigger] j[i] as u32) < 128
            && ascii_lower_char(j[i]) == j[i] by {
            if i < n {
                assert(j[i] == a[i]);
                assert(lowered(a)[i] == a[i]);
            } else if i > n {
                assert(j[i] == w[i - n - 1]);
                assert(plain_char(w[i - n - 1]));
            }
        }
    }
    assert(lowered(j) =~= j);
}

/// The terms of a text of ASCII characters, joined by spaces, have themselves as
/// their terms.
pub proof fn terms_give_themselves_back(text: Seq<char>)
    requires
        is_ascii_chars(text),
    ensures
        terms(join(terms(text), " "@)) == terms(text),
{
    let ts = terms(text);
    let p = |w: Seq<char>| indexed(w);
    lemma_plain_terms(text);
    assert forall|k: int| 0 <= k < ts.len() implies plain_word(#[trigger] ts[k]) && p(ts[k]) by {}
    lemma_joined_runs(ts);
    lemma_filter_all(ts, p);
}

// ── Searches ─────────────────────────────────────────────────────────────────

/// A search for `k` hits is the front of a search for all, and in a search for all
/// the hits of equal score stand in the order in which their chunks were added. So
/// no chunk that is left out scores higher than one that is kept.
pub proof fn a_search_is_the_front_of_a_longer_one(
    docs: Seq<DocView>,
    query: Seq<char>,
    k: int,
    scores: Seq<Score>,
    x: HitView,
)
    requires
        k >= 0,
        scores.len() == docs.len(),
    ensures
        found(docs, query, k, scores) == first_k(
            found(docs, query, docs.len() as int, scores),
            k,
        ),
        in_order(found(docs, query, docs.len() as int, scores), by_score()),
        found(docs, query, docs.len() as int, scores).filter(
            |h: HitView| h.score.rank() == x.score.rank(),
        ) == scored(docs, query_terms(query), scores).filter(
            |h: HitView| h.score.rank() == x.score.rank(),
        ),
{
    let raw = scored(docs, query_terms(query), scores);
    let all = sorted_by(raw, by_score());
    let le = by_score();
    let p = |z: HitView| le(x, z) && le(z, x);
    let q = |h: HitView| h.score.rank() == x.score.rank();
    assert(is_order(by_score()));
    sorting_orders_and_keeps(raw, by_score());
    lemma_scored_len(docs, query_terms(query), scores);
    sorting_keeps_ties_in_place(raw, by_score(), x);
    assert(p =~= q);
}

proof fn lemma_scored_is_a_filter(
    docs: Seq<DocView>,
    ts: Seq<Seq<char>>,
    scores: Seq<Score>,
    f: spec_fn(DocView) -> Score,
)
    requires
        forall|i: int| 0 <= i < docs.len() ==> #[trigger] scores[i] == f(docs[i]),
    ensures
        scored(docs, ts, scores) == docs.filter(
            |d: DocView| shares(d.text, ts) && f(d).positive(),
        ).map_values(|d: DocView| hit_of(d, f(d))),
    decreases docs.len(),
{
    reveal(Seq::filter);
    let p = |d: DocView| shares(d.text, ts) && f(d).positive();
    let g = |d: DocView| hit_of(d, f(d));
    if docs.len() > 0 {
        let d = docs.drop_last();
        assert forall|i: int| 0 <= i < d.len() implies #[trigger] scores[i] == f(d[i]) by {
            assert(d[i] == docs[i]);
        }
        lemma_scored_is_a_filter(d, ts, scores, f);
        assert(scores[docs.len() - 1] == f(docs[docs.len() - 1]));
        if p(docs.last()) {
            assert(d.filter(p).push(docs.last()).map_values(g) =~= d.filter(p).map_values(g).push(
                g(docs.last()),
            ));
        }
    } else {
        assert(scored(docs, ts, scores) =~= docs.filter(p).map_values(g));
    }
}

/// Where enough hits are asked for, what a search finds does not depend on the
/// order in which the chunks were added, `f` being the score of each chunk.
pub proof fn searches_do_not_depend_on_the_order(
    a: Seq<DocView>,
    b: Seq<DocView>,
    query: Seq<char>,
    k: int,
    f: spec_fn(DocView) -> Score,
)
    requires
        a.to_multiset() == b.to_multiset(),
        k >= a.len(),
    ensures
        found(a, query, k, a.map_values(f)).to_multiset() == found(
            b,
            query,
            k,
            b.map_values(f),
        ).to_multiset(),
        found(a, query, k, a.map_values(f)).len() == found(b, query, k, b.map_values(f)).len(),
{
    let ts = query_terms(query);
    let p = |d: DocView| shares(d.text, ts) && f(d).positive();
    let g = |d: DocView| hit_of(d, f(d));
    assert(a.len() == b.len()) by {
        broadcast use vstd::seq_lib::group_to_multiset_ensures;

        assert(a.len() == a.to_multiset().len());
        assert(b.len() == b.to_multiset().len());
    }
    lemma_scored_is_a_filter(a, ts, a.map_values(f), f);
    lemma_scored_is_a_filter(b, ts, b.map_values(f), f);
    lemma_filter_multiset(a, p);
    lemma_filter_multiset(b, p);
    lemma_map_multiset(a.filter(p), b.filter(p), g);
    assert(is_order(by_score()));
    sorting_orders_and_keeps(scored(a, ts, a.map_values(f)), by_score());
    sorting_orders_and_keeps(scored(b, ts, b.map_values(f)), by_score());
    lemma_scored_len(a, ts, a.map_values(f));
    lemma_scored_len(b, ts, b.map_values(f));
    let u = found(a, query, k, a.map_values(f));
    let v = found(b, query, k, b.map_values(f));
    assert(u.len() == v.len()) by {
        broadcast use vstd::seq_lib::group_to_multiset_ensures;

        assert(u.len() == u.to_multiset().len());
        assert(v.len() == v.to_multiset().len());
    }
}

proof fn lemma_holders_filter(docs: Seq<DocView>, t: Seq<char>)
    ensures
        holders(docs, t) == docs.filter(|d: DocView| terms(d.text).contains(t)).len(),
    decreases docs.len(),
{
    reveal(Seq::filter);
    if docs.len() > 0 {
        lemma_holders_filter(docs.drop_last(), t);
    }
}

/// The number of chunks that hold a term does not depend on the order in which the
/// chunks were added.
pub proof fn counts_do_not_depend_on_the_order(a: Seq<DocView>, b: Seq<DocView>, t: Seq<char>)
    requires
        a.to_multiset() == b.to_multiset(),
    ensures
        a.len() == b.len(),
        holders(a, t) == holders(b, t),
{
    broadcast use vstd::seq_lib::group_to_multiset_ensures;

    let p = |d: DocView| terms(d.text).contains(t);
    lemma_holders_filter(a, t);
    lemma_holders_filter(b, t);
    lemma_filter_multiset(a, p);
    lemma_filter_multiset(b, p);
    assert(a.len() == a.to_multiset().len());
    assert(b.len() == b.to_multiset().len());
    assert(a.filter(p).len() == a.filter(p).to_multiset().len());
    assert(b.filter(p).len() == b.filter(p).to_multiset().len());
}

} // verus!
