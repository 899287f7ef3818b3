//! What the terms of a text are, and which chunks a search finds, in terms of the
//! words of the texts.
use vstd::prelude::*;

use crate::order::{is_order, sorted_by, sorting_orders_and_keeps, text_set_is_a_set};
use crate::rag::bm25::{
    by_score, counts, found, holders, keyword_hits_are_ranked, occurrences, query_terms, scored,
    shares, stopword, terms, without_source, DocView,
};
use crate::rag::score::Score;
use crate::rag::system::docs_of;
use crate::rag::types::{ChunkView, HitSource, HitView};
use crate::text::{alnum, alnum_mask, lowered, runs};
use crate::text_laws::runs_are_maximal_stretches;

verus! {

// ── Terms ────────────────────────────────────────────────────────────────────

/// The terms of a text are its stretches of letters and digits in lower case, in
/// order: all that are longer than one character and no stopword, and no others.
pub proof fn every_word_but_stopwords_is_a_term(text: Seq<char>, w: Seq<char>)
    ensures
        terms(text) == runs(lowered(text), alnum_mask(lowered(text))).filter(
            |x: Seq<char>| x.len() > 1 && !stopword(x),
        ),
        terms(text).contains(w) <==> runs(lowered(text), alnum_mask(lowered(text))).contains(w)
            && w.len() > 1 && !stopword(w),
{
    let ws = runs(lowered(text), alnum_mask(lowered(text)));
    let p = |x: Seq<char>| x.len() > 1 && !stopword(x);
    assert(terms(text) == ws.filter(p)) by {
        assert((|x: Seq<char>| crate::rag::bm25::indexed(x)) =~= p);
    }
    if ws.filter(p).contains(w) {
        ws.lemma_filter_contains_rev(p, w);
        let k = choose|k: int| 0 <= k < ws.filter(p).len() && ws.filter(p)[k] == w;
        ws.lemma_filter_pred(p, k);
    }
    if ws.contains(w) && p(w) {
        let k = choose|k: int| 0 <= k < ws.len() && ws[k] == w;
        ws.lemma_filter_contains(p, k);
    }
}

/// A word of letters and digits in lower case, however long, is its own only term,
/// unless it is a stopword or a single character.
pub proof fn a_word_is_its_own_term(w: Seq<char>)
    requires
        w.len() > 1,
        lowered(w) == w,
        forall|i: int| 0 <= i < w.len() ==> alnum(#[trigger] w[i]),
    ensures
        !stopword(w) ==> terms(w) == seq![w],
        stopword(w) ==> terms(w).len() == 0,
{
    let m = alnum_mask(w);
    let n = w.len() as int;
    assert forall|i: int| 0 <= i < n implies #[trigger] m[i] by {
        assert(alnum(w[i]));
    }
    runs_are_maximal_stretches(w, m, 0, n);
    assert(w.subrange(0, n) =~= w);
    assert(m.skip(n) =~= Seq::<bool>::empty());
    assert(runs(w.skip(n), m.skip(n)) =~= Seq::<Seq<char>>::empty());
    assert(runs(w, m) =~= seq![w]);
    every_word_but_stopwords_is_a_term(w, w);
    let p = |x: Seq<char>| x.len() > 1 && !stopword(x);
    reveal(Seq::filter);
    assert(seq![w].drop_last() =~= Seq::<Seq<char>>::empty());
    assert(seq![w].drop_last().filter(p) =~= Seq::<Seq<char>>::empty());
    if p(w) {
        assert(seq![w].filter(p) =~= seq![w]);
    } else {
        assert(seq![w].filter(p) =~= Seq::<Seq<char>>::empty());
    }
}

/// The stopwords are these, by length, and no other word is one.
pub proof fn stopwords_are_these(w: Seq<char>)
    ensures
        stopword(w) <==> {
            ||| w == "a"@ || w == "i"@
            ||| w == "an"@ || w == "of"@ || w == "to"@ || w == "in"@ || w == "on"@ || w == "at"@
                || w == "or"@ || w == "is"@ || w == "be"@ || w == "it"@ || w == "as"@ || w == "by"@
                || w == "do"@ || w == "he"@ || w == "we"@ || w == "my"@ || w == "no"@ || w == "if"@
                || w == "me"@ || w == "us"@ || w == "so"@ || w == "up"@
            ||| w == "the"@ || w == "for"@ || w == "and"@ || w == "but"@ || w == "are"@
                || w == "was"@ || w == "its"@ || w == "did"@ || w == "has"@ || w == "had"@
                || w == "can"@ || w == "you"@ || w == "she"@ || w == "his"@ || w == "her"@
                || w == "our"@ || w == "who"@ || w == "why"@ || w == "how"@ || w == "not"@
                || w == "yes"@ || w == "him"@ || w == "out"@ || w == "off"@ || w == "all"@
                || w == "any"@
            ||| w == "were"@ || w == "been"@ || w == "this"@ || w == "that"@ || w == "with"@
                || w == "from"@ || w == "into"@ || w == "over"@ || w == "does"@ || w == "have"@
                || w == "will"@ || w == "they"@ || w == "your"@ || w == "what"@ || w == "when"@
                || w == "then"@ || w == "else"@ || w == "than"@ || w == "here"@ || w == "them"@
                || w == "some"@ || w == "more"@ || w == "most"@
            ||| w == "being"@ || w == "these"@ || w == "those"@ || w == "under"@ || w == "would"@
                || w == "could"@ || w == "their"@ || w == "which"@ || w == "where"@ || w == "there"@
                || w == "about"@
            ||| w == "should"@
        },
{
}

/// A stopword is of one to six small letters, so that every longer word and every
/// word with a digit is a term.
pub proof fn stopwords_are_short(w: Seq<char>)
    requires
        stopword(w),
    ensures
        1 <= w.len() <= 6,
        forall|i: int| 0 <= i < w.len() ==> 'a' <= #[trigger] w[i] <= 'z',
{
    reveal_strlit("a");
    reveal_strlit("an");
    reveal_strlit("the");
    reveal_strlit("of");
    reveal_strlit("to");
    reveal_strlit("in");
    reveal_strlit("on");
    reveal_strlit("at");
    reveal_strlit("for");
    reveal_strlit("and");
    reveal_strlit("or");
    reveal_strlit("but");
    reveal_strlit("is");
    reveal_strlit("are");
    reveal_strlit("was");
    reveal_strlit("were");
    reveal_strlit("be");
    reveal_strlit("been");
    reveal_strlit("being");
    reveal_strlit("this");
    reveal_strlit("that");
    reveal_strlit("these");
    reveal_strlit("those");
    reveal_strlit("it");
    reveal_strlit("its");
    reveal_strlit("as");
    reveal_strlit("by");
    reveal_strlit("with");
    reveal_strlit("from");
    reveal_strlit("into");
    reveal_strlit("over");
    reveal_strlit("under");
    reveal_strlit("do");
    reveal_strlit("does");
    reveal_strlit("did");
    reveal_strlit("have");
    reveal_strlit("has");
    reveal_strlit("had");
    reveal_strlit("will");
    reveal_strlit("would");
    reveal_strlit("can");
    reveal_strlit("could");
    reveal_strlit("should");
    reveal_strlit("i");
    reveal_strlit("you");
    reveal_strlit("he");
    reveal_strlit("she");
    reveal_strlit("we");
    reveal_strlit("they");
    reveal_strlit("my");
    reveal_strlit("your");
    reveal_strlit("his");
    reveal_strlit("her");
    reveal_strlit("our");
    reveal_strlit("their");
    reveal_strlit("what");
    reveal_strlit("which");
    reveal_strlit("who");
    reveal_strlit("when");
    reveal_strlit("where");
    reveal_strlit("why");
    reveal_strlit("how");
    reveal_strlit("not");
    reveal_strlit("no");
    reveal_strlit("yes");
    reveal_strlit("if");
    reveal_strlit("then");
    reveal_strlit("else");
    reveal_strlit("than");
    reveal_strlit("there");
    reveal_strlit("here");
    reveal_strlit("about");
    reveal_strlit("me");
    reveal_strlit("him");
    reveal_strlit("them");
    reveal_strlit("us");
    reveal_strlit("so");
    reveal_strlit("up");
    reveal_strlit("out");
    reveal_strlit("off");
    reveal_strlit("all");
    reveal_strlit("any");
    reveal_strlit("some");
    reveal_strlit("more");
    reveal_strlit("most");
}

// ── Counts ───────────────────────────────────────────────────────────────────

proof fn lemma_occurrences_filter(ts: Seq<Seq<char>>, t: Seq<char>)
    ensures
        occurrences(ts, t) == ts.filter(|x: Seq<char>| x == t).len(),
    decreases ts.len(),
{
    reveal(Seq::filter);
    if ts.len() > 0 {
        lemma_occurrences_filter(ts.drop_last(), t);
    }
}

proof fn lemma_holders_count(docs: Seq<DocView>, t: Seq<char>)
    ensures
        holders(docs, t) == docs.filter(|d: DocView| terms(d.text).contains(t)).len(),
    decreases docs.len(),
{
    reveal(Seq::filter);
    if docs.len() > 0 {
        lemma_holders_count(docs.drop_last(), t);
    }
}

/// What BM25 weighs: the chunks that hold a term are counted each once, a term is
/// counted as often as it stands in a chunk, and there is a count for each term of
/// the query.
pub proof fn counts_are_numbers_of_terms(
    docs: Seq<DocView>,
    text: Seq<char>,
    query: Seq<char>,
    i: int,
    t: Seq<char>,
)
    requires
        0 <= i < query_terms(query).len(),
        query_terms(query)[i] == t,
    ensures
        counts(text, query_terms(query)).len() == query_terms(query).len(),
        counts(text, query_terms(query))[i] == terms(text).filter(|x: Seq<char>| x == t).len(),
        holders(docs, t) == docs.filter(|d: DocView| terms(d.text).contains(t)).len(),
{
    lemma_occurrences_filter(terms(text), t);
    lemma_holders_count(docs, t);
}

/// A chunk matches a query if and only if they have a term in common.
pub proof fn matches_have_a_term_in_common(text: Seq<char>, query: Seq<char>)
    ensures
        shares(text, query_terms(query)) <==> exists|t: Seq<char>| #[trigger]
            terms(text).contains(t) && terms(query).contains(t),
        forall|t: Seq<char>| #[trigger]
            query_terms(query).contains(t) <==> terms(query).contains(t),
        query_terms(query).no_duplicates(),
{
    let qs = query_terms(query);
    text_set_is_a_set(terms(query));
    if shares(text, qs) {
        let i = choose|i: int| 0 <= i < qs.len() && terms(text).contains(#[trigger] qs[i]);
        assert(qs.contains(qs[i]));
        assert(terms(query).contains(qs[i]));
    }
    if (exists|t: Seq<char>| #[trigger] terms(text).contains(t) && terms(query).contains(t)) {
        let t = choose|t: Seq<char>| #[trigger]
            terms(text).contains(t) && terms(query).contains(t);
        assert(qs.contains(t));
        let i = choose|i: int| 0 <= i < qs.len() && qs[i] == t;
        assert(terms(text).contains(qs[i]));
    }
    assert forall|i: int, j: int| 0 <= i < j < qs.len() implies qs[i] != qs[j] by {
        crate::search::lemma_text_before_total(qs[i], qs[j]);
        assert(crate::search::text_before(qs[i], qs[j]));
    }
}

// ── Searches ─────────────────────────────────────────────────────────────────

/// A chunk is a candidate for a query: they have a term in common, and its score
/// is above zero.
pub open spec fn candidate(d: DocView, score: Score, query: Seq<char>) -> bool {
    score.positive() && exists|t: Seq<char>| #[trigger]
        terms(d.text).contains(t) && terms(query).contains(t)
}

/// The hit is the chunk as it was indexed, with its score, found by keyword.
pub open spec fn is_hit_of(h: HitView, d: DocView, score: Score) -> bool {
    &&& h.document_id == d.document_id
    &&& h.chunk_id == d.chunk_id
    &&& h.source == d.source
    &&& h.text == d.text
    &&& h.score == score
    &&& h.retrieval == HitSource::Keyword
}

/// The hit is that of a candidate among the chunks.
pub open spec fn is_candidate_hit(
    h: HitView,
    docs: Seq<DocView>,
    scores: Seq<Score>,
    query: Seq<char>,
) -> bool {
    exists|j: int|
        0 <= j < docs.len() && candidate(#[trigger] docs[j], scores[j], query) && is_hit_of(
            h,
            docs[j],
            scores[j],
        )
}

/// The candidates are scored in the order of the index: `of[i]` is the chunk of
/// scored hit `i`.
pub proof fn candidates_follow_the_index(
    docs: Seq<DocView>,
    query: Seq<char>,
    scores: Seq<Score>,
) -> (of: Seq<int>)
    ensures
        of.len() == scored(docs, query_terms(query), scores).len(),
        forall|i: int|
            0 <= i < of.len() ==> 0 <= #[trigger] of[i] < docs.len() && candidate(
                docs[of[i]],
                scores[of[i]],
                query,
            ) && is_hit_of(
                scored(docs, query_terms(query), scores)[i],
                docs[of[i]],
                scores[of[i]],
            ),
        forall|i: int, j: int| 0 <= i < j < of.len() ==> #[trigger] of[i] < #[trigger] of[j],
        forall|k: int|
            0 <= k < docs.len() && candidate(#[trigger] docs[k], scores[k], query)
                ==> of.contains(k),
    decreases docs.len(),
{
    if docs.len() == 0 {
        Seq::empty()
    } else {
        let d = docs.drop_last();
        let n = docs.len() - 1;
        let before = candidates_follow_the_index(d, query, scores);
        matches_have_a_term_in_common(docs.last().text, query);
        let of = if candidate(docs.last(), scores[n], query) {
            before.push(n)
        } else {
            before
        };
        assert forall|i: int| 0 <= i < of.len() implies 0 <= #[trigger] of[i] < docs.len()
            && candidate(docs[of[i]], scores[of[i]], query) && is_hit_of(
            scored(docs, query_terms(query), scores)[i],
            docs[of[i]],
            scores[of[i]],
        ) by {
            if i < before.len() {
                assert(of[i] == before[i]);
                assert(docs[of[i]] == d[before[i]]);
            }
        }
        assert forall|k: int|
            0 <= k < docs.len() && candidate(
                #[trigger] docs[k],
                scores[k],
                query,
            ) implies of.contains(k) by {
            if k < n {
                assert(docs[k] == d[k]);
                assert(before.contains(k));
                let i = choose|i: int| 0 <= i < before.len() && before[i] == k;
                assert(of[i] == k);
            } else {
                assert(of[before.len() as int] == k);
            }
        }
        of
    }
}

/// A search for `k` hits finds the best candidates and leaves out only worse ones:
/// there are `k` hits, or as many as there are candidates; every hit is a
/// candidate as it was indexed; and a candidate that is left out scores no higher
/// than any hit.
pub proof fn the_best_candidates_are_found(
    docs: Seq<DocView>,
    query: Seq<char>,
    k: int,
    scores: Seq<Score>,
)
    requires
        k >= 0,
        scores.len() == docs.len(),
    ensures
        ({
            let r = found(docs, query, k, scores);
            let all = Seq::new(docs.len(), |j: int| j).filter(
                |j: int| candidate(docs[j], scores[j], query),
            );
            &&& r.len() == if k < all.len() {
                k
            } else {
                all.len() as int
            }
            &&& forall|i: int, j: int|
                0 <= i < j < r.len() ==> (#[trigger] r[i]).score.rank() >= (
                #[trigger] r[j]).score.rank()
            &&& forall|i: int|
                0 <= i < r.len() ==> is_candidate_hit(#[trigger] r[i], docs, scores, query)
            &&& forall|j: int, i: int|
                0 <= j < docs.len() && candidate(#[trigger] docs[j], scores[j], query) && 0 <= i
                    < r.len() ==> (exists|m: int|
                    0 <= m < r.len() && is_hit_of(#[trigger] r[m], docs[j], scores[j]))
                    || (#[trigger] r[i]).score.rank() >= scores[j].rank()
        }),
{
    broadcast use vstd::seq_lib::group_to_multiset_ensures;

    let r = found(docs, query, k, scores);
    let raw = scored(docs, query_terms(query), scores);
    let all = sorted_by(raw, by_score());
    let p = |j: int| candidate(docs[j], scores[j], query);
    let nums = Seq::new(docs.len(), |j: int| j);
    let of = candidates_follow_the_index(docs, query, scores);
    lemma_filter_is(nums, p, of);
    assert(is_order(by_score()));
    sorting_orders_and_keeps(raw, by_score());
    keyword_hits_are_ranked(docs, query, k, scores);
    assert forall|i: int| 0 <= i < r.len() implies is_candidate_hit(
        #[trigger] r[i],
        docs,
        scores,
        query,
    ) by {
        assert(all[i] == r[i]);
        assert(all.contains(all[i]));
        assert(all.to_multiset().count(all[i]) > 0);
        assert(raw.to_multiset().count(all[i]) > 0);
        assert(raw.contains(all[i]));
        let m = choose|m: int| 0 <= m < raw.len() && raw[m] == all[i];
        assert(candidate(docs[of[m]], scores[of[m]], query));
        assert(is_hit_of(r[i], docs[of[m]], scores[of[m]]));
    }
    assert forall|j: int, i: int|
        0 <= j < docs.len() && candidate(#[trigger] docs[j], scores[j], query) && 0 <= i
            < r.len() implies (exists|m: int|
        0 <= m < r.len() && is_hit_of(#[trigger] r[m], docs[j], scores[j])) || (
    #[trigger] r[i]).score.rank() >= scores[j].rank() by {
        assert(of.contains(j));
        let a = choose|a: int| 0 <= a < of.len() && of[a] == j;
        assert(is_hit_of(raw[a], docs[of[a]], scores[of[a]]));
        assert(raw.contains(raw[a]));
        assert(raw.to_multiset().count(raw[a]) > 0);
        assert(all.to_multiset().count(raw[a]) > 0);
        assert(all.contains(raw[a]));
        let m = choose|m: int| 0 <= m < all.len() && all[m] == raw[a];
        if m < r.len() {
            assert(r[m] == all[m]);
            assert(is_hit_of(r[m], docs[j], scores[j]));
        } else {
            assert(by_score()(all[i], all[m]));
            assert(r[i] == all[i]);
        }
    }
}

/// The numbers that a predicate picks, in increasing order, are those of a filter.
proof fn lemma_filter_is(nums: Seq<int>, p: spec_fn(int) -> bool, of: Seq<int>)
    requires
        nums == Seq::new(nums.len(), |j: int| j),
        forall|i: int| 0 <= i < of.len() ==> 0 <= #[trigger] of[i] < nums.len() && p(of[i]),
        forall|i: int, j: int| 0 <= i < j < of.len() ==> #[trigger] of[i] < #[trigger] of[j],
        forall|j: int| 0 <= j < nums.len() && #[trigger] p(j) ==> of.contains(j),
    ensures
        nums.filter(p) == of,
    decreases nums.len(),
{
    reveal(Seq::filter);
    if nums.len() == 0 {
        if of.len() > 0 {
            assert(0 <= of[0] < nums.len());
        }
        assert(nums.filter(p) =~= of);
    } else {
        let d = nums.drop_last();
        let n = nums.len() - 1;
        assert(d =~= Seq::new(d.len(), |j: int| j));
        assert(nums.last() == n);
        if p(n) {
            assert(of.contains(n));
            let k = choose|k: int| 0 <= k < of.len() && of[k] == n;
            if k < of.len() - 1 {
                assert(of[k] < of[of.len() - 1]);
            }
            let e = of.drop_last();
            assert forall|i: int| 0 <= i < e.len() implies 0 <= #[trigger] e[i] < d.len() && p(
                e[i],
            ) by {
                assert(of[i] < of[of.len() - 1]);
            }
            assert forall|j: int| 0 <= j < d.len() && #[trigger] p(j) implies e.contains(j) by {
                assert(of.contains(j));
                let m = choose|m: int| 0 <= m < of.len() && of[m] == j;
                assert(e[m] == j);
            }
            lemma_filter_is(d, p, e);
            assert(e.push(n) =~= of);
        } else {
            assert forall|i: int| 0 <= i < of.len() implies 0 <= #[trigger] of[i] < d.len() && p(
                of[i],
            ) by {
                assert(p(of[i]));
            }
            lemma_filter_is(d, p, of);
        }
    }
}

/// Removing a source leaves the other chunks in their order, each as it was.
pub proof fn removing_keeps_the_order(docs: Seq<DocView>, rest: Seq<DocView>, source: Seq<char>)
    ensures
        without_source(docs, source) == docs.filter(|d: DocView| d.source != source),
        without_source(docs + rest, source) == without_source(docs, source) + without_source(
            rest,
            source,
        ),
    decreases rest.len(),
{
    reveal(Seq::filter);
    if rest.len() == 0 {
        assert(docs + rest =~= docs);
        assert(without_source(rest, source) =~= Seq::<DocView>::empty());
        assert(without_source(docs, source) + Seq::<DocView>::empty() =~= without_source(
            docs,
            source,
        ));
    } else {
        removing_keeps_the_order(docs, rest.drop_last(), source);
        assert((docs + rest).drop_last() =~= docs + rest.drop_last());
        assert(without_source(docs + rest, source) =~= without_source(docs, source)
            + without_source(rest, source));
    }
}

/// Chunks are indexed in their order, each with its own document, number, source
/// and text.
pub proof fn chunks_are_indexed_as_they_are(chunks: Seq<ChunkView>, i: int)
    requires
        0 <= i < chunks.len(),
    ensures
        docs_of(chunks).len() == chunks.len(),
        docs_of(chunks)[i].document_id == chunks[i].document_id,
        docs_of(chunks)[i].chunk_id == chunks[i].chunk_id,
        docs_of(chunks)[i].source == chunks[i].source,
        docs_of(chunks)[i].text == chunks[i].text,
{
}

} // verus!
