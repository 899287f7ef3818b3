//! Keyword retrieval: an index of the terms of every chunk, ranked by BM25.
//!
//! The index counts terms. The weight that BM25 gives to those counts is a
//! floating-point formula over [`TermStats`]; its results come back as scores,
//! and the index picks and orders the hits.
use vstd::prelude::*;

use crate::order::{
    first_k, is_order, set_of_texts, sorted_by, sorting_orders_and_keeps, stable_sort, text_set,
    Ranked,
};
use crate::rag::chunk::clen;
use crate::rag::score::Score;
use crate::rag::types::{ChunkView, Hit, HitSource, HitView, StoredChunk};
use crate::search::same_text;
use crate::text::{alnum_mask, alnum_mask_of, chars_of, lower, lowered, runs, runs_of};

verus! {

// ── Terms ────────────────────────────────────────────────────────────────────

/// A common English word that only adds noise to keyword matching.
pub open spec fn stopword(w: Seq<char>) -> bool {
    ||| w == "a"@
    ||| w == "an"@
    ||| w == "the"@
    ||| w == "of"@
    ||| w == "to"@
    ||| w == "in"@
    ||| w == "on"@
    ||| w == "at"@
    ||| w == "for"@
    ||| w == "and"@
    ||| w == "or"@
    ||| w == "but"@
    ||| w == "is"@
    ||| w == "are"@
    ||| w == "was"@
    ||| w == "were"@
    ||| w == "be"@
    ||| w == "been"@
    ||| w == "being"@
    ||| w == "this"@
    ||| w == "that"@
    ||| w == "these"@
    ||| w == "those"@
    ||| w == "it"@
    ||| w == "its"@
    ||| w == "as"@
    ||| w == "by"@
    ||| w == "with"@
    ||| w == "from"@
    ||| w == "into"@
    ||| w == "over"@
    ||| w == "under"@
    ||| w == "do"@
    ||| w == "does"@
    ||| w == "did"@
    ||| w == "have"@
    ||| w == "has"@
    ||| w == "had"@
    ||| w == "will"@
    ||| w == "would"@
    ||| w == "can"@
    ||| w == "could"@
    ||| w == "should"@
    ||| w == "i"@
    ||| w == "you"@
    ||| w == "he"@
    ||| w == "she"@
    ||| w == "we"@
    ||| w == "they"@
    ||| w == "my"@
    ||| w == "your"@
    ||| w == "his"@
    ||| w == "her"@
    ||| w == "our"@
    ||| w == "their"@
    ||| w == "what"@
    ||| w == "which"@
    ||| w == "who"@
    ||| w == "when"@
    ||| w == "where"@
    ||| w == "why"@
    ||| w == "how"@
    ||| w == "not"@
    ||| w == "no"@
    ||| w == "yes"@
    ||| w == "if"@
    ||| w == "then"@
    ||| w == "else"@
    ||| w == "than"@
    ||| w == "there"@
    ||| w == "here"@
    ||| w == "about"@
    ||| w == "me"@
    ||| w == "him"@
    ||| w == "them"@
    ||| w == "us"@
    ||| w == "so"@
    ||| w == "up"@
    ||| w == "out"@
    ||| w == "off"@
    ||| w == "all"@
    ||| w == "any"@
    ||| w == "some"@
    ||| w == "more"@
    ||| w == "most"@
}

/// Whether a word is a stopword.
pub fn is_stopword(w: &str) -> (r: bool)
    ensures
        r == stopword(w@),
{
    same_text(w, "a") || same_text(w, "an") || same_text(w, "the") || same_text(w, "of")
        || same_text(w, "to") || same_text(w, "in") || same_text(w, "on") || same_text(w, "at")
        || same_text(w, "for") || same_text(w, "and") || same_text(w, "or")
        || same_text(w, "but") || same_text(w, "is") || same_text(w, "are")
        || same_text(w, "was") || same_text(w, "were") || same_text(w, "be")
        || same_text(w, "been") || same_text(w, "being") || same_text(w, "this")
        || same_text(w, "that") || same_text(w, "these") || same_text(w, "those")
        || same_text(w, "it") || same_text(w, "its") || same_text(w, "as") || same_text(w, "by")
        || same_text(w, "with") || same_text(w, "from") || same_text(w, "into")
        || same_text(w, "over") || same_text(w, "under") || same_text(w, "do")
        || same_text(w, "does") || same_text(w, "did") || same_text(w, "have")
        || same_text(w, "has") || same_text(w, "had") || same_text(w, "will")
        || same_text(w, "would") || same_text(w, "can") || same_text(w, "could")
        || same_text(w, "should") || same_text(w, "i") || same_text(w, "you")
        || same_text(w, "he") || same_text(w, "she") || same_text(w, "we")
        || same_text(w, "they") || same_text(w, "my") || same_text(w, "your")
        || same_text(w, "his") || same_text(w, "her") || same_text(w, "our")
        || same_text(w, "their") || same_text(w, "what") || same_text(w, "which")
        || same_text(w, "who") || same_text(w, "when") || same_text(w, "where")
        || same_text(w, "why") || same_text(w, "how") || same_text(w, "not")
        || same_text(w, "no") || same_text(w, "yes") || same_text(w, "if")
        || same_text(w, "then") || same_text(w, "else") || same_text(w, "than")
        || same_text(w, "there") || same_text(w, "here") || same_text(w, "about")
        || same_text(w, "me") || same_text(w, "him") || same_text(w, "them")
        || same_text(w, "us") || same_text(w, "so") || same_text(w, "up") || same_text(w, "out")
        || same_text(w, "off") || same_text(w, "all") || same_text(w, "any")
        || same_text(w, "some") || same_text(w, "more") || same_text(w, "most")
}

/// A word that is indexed: of more than one character, and no stopword.
pub open spec fn indexed(w: Seq<char>) -> bool {
    w.len() > 1 && !stopword(w)
}

/// The terms of a text in lower case, of which `mask` marks the letters and
/// digits.
pub open spec fn terms_in(low: Seq<char>, mask: Seq<bool>) -> Seq<Seq<char>> {
    runs(low, mask).filter(|w: Seq<char>| indexed(w))
}

/// The terms of a text: the stretches of letters and digits of its lower case
/// that are longer than one character and no stopwords.
pub open spec fn terms(text: Seq<char>) -> Seq<Seq<char>> {
    terms_in(lowered(text), alnum_mask(lowered(text)))
}

/// The terms of a text in lower case, of which `mask` marks the letters and
/// digits.
pub fn indexed_terms(low: &[char], mask: &[bool]) -> (r: Vec<String>)
    requires
        mask@.len() == low@.len(),
    ensures
        r.deep_view() == terms_in(low@, mask@),
{
    let ws = runs_of(low, mask);
    let ghost all = ws.deep_view();
    let ghost p = |w: Seq<char>| indexed(w);
    let mut r: Vec<String> = Vec::new();
    let mut i: usize = 0;
    proof {
        reveal(Seq::filter);
        assert(r.deep_view() =~= all.take(0).filter(p));
    }
    while i < ws.len()
        invariant
            i <= ws@.len(),
            all == ws.deep_view(),
            all.len() == ws@.len(),
            p == (|w: Seq<char>| indexed(w)),
            r.deep_view() == all.take(i as int).filter(p),
        decreases ws@.len() - i,
    {
        let ghost before = r.deep_view();
        proof {
            reveal(Seq::filter);
            let next = all.take(i + 1);
            assert(next.drop_last() =~= all.take(i as int));
            assert(next.last() == ws@[i as int]@);
        }
        if clen(ws[i].as_str()) > 1 && !is_stopword(ws[i].as_str()) {
            let w = ws[i].clone();
            r.push(w);
            proof {
                assert(r.deep_view() =~= before.push(w@));
            }
        }
        i = i + 1;
    }
    proof {
        assert(all.take(i as int) =~= all);
    }
    r
}

/// The terms of a text: lower case, split at everything that is no letter or
/// digit, without stopwords and terms of one character.
pub fn tokenize(text: &str) -> (r: Vec<String>)
    ensures
        r.deep_view() == terms(text@),
{
    let low = lower(text);
    let cs = chars_of(low.as_str());
    let mask = alnum_mask_of(&cs);
    indexed_terms(&cs, &mask)
}

/// How often `t` occurs among terms.
pub open spec fn occurrences(ts: Seq<Seq<char>>, t: Seq<char>) -> nat
    decreases ts.len(),
{
    if ts.len() == 0 {
        0
    } else {
        occurrences(ts.drop_last(), t) + if ts.last() == t {
            1nat
        } else {
            0nat
        }
    }
}

/// A term occurs if and only if it is among the terms.
pub proof fn lemma_occurrences(ts: Seq<Seq<char>>, t: Seq<char>)
    ensures
        occurrences(ts, t) <= ts.len(),
        occurrences(ts, t) > 0 <==> ts.contains(t),
    decreases ts.len(),
{
    if ts.len() > 0 {
        let d = ts.drop_last();
        lemma_occurrences(d, t);
        if d.contains(t) {
            let k = choose|k: int| 0 <= k < d.len() && d[k] == t;
            assert(ts[k] == t);
        }
        if ts.last() == t {
            assert(ts[ts.len() - 1] == t);
        }
        if ts.contains(t) && ts.last() != t {
            let k = choose|k: int| 0 <= k < ts.len() && ts[k] == t;
            assert(d[k] == t);
        }
    }
}

fn count_term(ts: &Vec<String>, t: &str) -> (n: usize)
    ensures
        n == occurrences(ts.deep_view(), t@),
{
    let ghost all = ts.deep_view();
    let mut n: usize = 0;
    let mut i: usize = 0;
    proof {
        assert(all.take(0) =~= Seq::<Seq<char>>::empty());
    }
    while i < ts.len()
        invariant
            i <= ts@.len(),
            n <= i,
            all == ts.deep_view(),
            all.len() == ts@.len(),
            n == occurrences(all.take(i as int), t@),
        decreases ts@.len() - i,
    {
        proof {
            let next = all.take(i + 1);
            assert(next.drop_last() =~= all.take(i as int));
            assert(next.last() == ts@[i as int]@);
        }
        if same_text(ts[i].as_str(), t) {
            n = n + 1;
        }
        i = i + 1;
    }
    proof {
        assert(all.take(i as int) =~= all);
    }
    n
}

// ── The index ────────────────────────────────────────────────────────────────

/// One indexed chunk with its terms.
struct Doc {
    document_id: String,
    chunk_id: usize,
    source: String,
    text: String,
    terms: Vec<String>,
}

impl Doc {
    #[verifier::type_invariant]
    spec fn inv(self) -> bool {
        self.terms.deep_view() == terms(self.text@)
    }
}

/// What the index knows of a chunk.
#[verifier::ext_equal]
pub struct DocView {
    pub document_id: Seq<char>,
    pub chunk_id: usize,
    pub source: Seq<char>,
    pub text: Seq<char>,
}

impl View for Doc {
    type V = DocView;

    closed spec fn view(&self) -> DocView {
        DocView {
            document_id: self.document_id@,
            chunk_id: self.chunk_id,
            source: self.source@,
            text: self.text@,
        }
    }
}

impl DeepView for Doc {
    type V = DocView;

    closed spec fn deep_view(&self) -> DocView {
        self@
    }
}

/// What the index knows of a stored chunk.
pub open spec fn doc_of(c: ChunkView) -> DocView {
    DocView { document_id: c.document_id, chunk_id: c.chunk_id, source: c.source, text: c.text }
}

/// An index of the terms of all chunks, in memory.
pub struct Bm25Index {
    docs: Vec<Doc>,
}

impl View for Bm25Index {
    type V = Seq<DocView>;

    /// The chunks, in the order in which they were added.
    closed spec fn view(&self) -> Seq<DocView> {
        self.docs.deep_view()
    }
}

/// The counts that BM25 weighs for one query.
#[derive(Debug)]
pub struct TermStats {
    /// The terms of the query, each once, in increasing order.
    pub terms: Vec<String>,
    /// The number of terms of each chunk.
    pub lengths: Vec<usize>,
    /// The number of chunks that hold each term.
    pub doc_freq: Vec<usize>,
    /// How often each chunk holds each term: a row for each chunk.
    pub term_freq: Vec<Vec<usize>>,
}

/// The terms of a query, each once, in increasing order.
pub open spec fn query_terms(query: Seq<char>) -> Seq<Seq<char>> {
    text_set(terms(query))
}

/// The number of chunks that hold a term.
pub open spec fn holders(docs: Seq<DocView>, t: Seq<char>) -> nat
    decreases docs.len(),
{
    if docs.len() == 0 {
        0
    } else {
        holders(docs.drop_last(), t) + if terms(docs.last().text).contains(t) {
            1nat
        } else {
            0nat
        }
    }
}

/// The row of counts of one chunk.
pub open spec fn counts(text: Seq<char>, ts: Seq<Seq<char>>) -> Seq<int> {
    Seq::new(ts.len(), |i: int| occurrences(terms(text), ts[i]) as int)
}

/// A text holds one of the terms.
pub open spec fn shares(text: Seq<char>, ts: Seq<Seq<char>>) -> bool {
    exists|i: int| 0 <= i < ts.len() && terms(text).contains(#[trigger] ts[i])
}

/// The hit that a chunk makes.
pub open spec fn hit_of(d: DocView, score: Score) -> HitView {
    HitView {
        text: d.text,
        source: d.source,
        score: score,
        document_id: d.document_id,
        chunk_id: d.chunk_id,
        retrieval: HitSource::Keyword,
    }
}

/// The chunks that share a term with the query and score above zero, in the
/// order of the index.
pub open spec fn scored(docs: Seq<DocView>, ts: Seq<Seq<char>>, scores: Seq<Score>) -> Seq<HitView>
    decreases docs.len(),
{
    if docs.len() == 0 {
        Seq::empty()
    } else {
        let before = scored(docs.drop_last(), ts, scores);
        let score = scores[docs.len() - 1];
        if shares(docs.last().text, ts) && score.positive() {
            before.push(hit_of(docs.last(), score))
        } else {
            before
        }
    }
}

/// The order of hits: by score, the best first.
pub open spec fn by_score() -> spec_fn(HitView, HitView) -> bool {
    |a: HitView, b: HitView| a.score.rank() >= b.score.rank()
}

/// The best `k` chunks for a query, the best first; of equal scores, the one
/// that was added first.
pub open spec fn found(
    docs: Seq<DocView>,
    query: Seq<char>,
    k: int,
    scores: Seq<Score>,
) -> Seq<HitView> {
    first_k(sorted_by(scored(docs, query_terms(query), scores), by_score()), k)
}

impl Ranked for Hit {
    open spec fn order() -> spec_fn(HitView, HitView) -> bool {
        by_score()
    }

    fn may_precede(&self, other: &Self) -> (r: bool) {
        self.score.ranking() >= other.score.ranking()
    }
}

/// The index of the chunks without those of a source.
pub open spec fn without_source(docs: Seq<DocView>, source: Seq<char>) -> Seq<DocView> {
    docs.filter(|d: DocView| d.source != source)
}

impl Default for Bm25Index {
    fn default() -> (r: Bm25Index)
        ensures
            r@.len() == 0,
    {
        Bm25Index { docs: Vec::new() }
    }
}

impl Bm25Index {
    /// An empty index.
    pub fn new() -> (r: Bm25Index)
        ensures
            r@ == Seq::<DocView>::empty(),
    {
        let r = Bm25Index { docs: Vec::new() };
        proof {
            assert(r@ =~= Seq::<DocView>::empty());
        }
        r
    }

    /// Drops all chunks.
    pub fn clear(&mut self)
        ensures
            final(self)@ == Seq::<DocView>::empty(),
    {
        self.docs = Vec::new();
        proof {
            assert(self@ =~= Seq::<DocView>::empty());
        }
    }

    /// The number of chunks.
    pub fn len(&self) -> (n: usize)
        ensures
            n == self@.len(),
    {
        self.docs.len()
    }

    /// Whether there is no chunk.
    pub fn is_empty(&self) -> (r: bool)
        ensures
            r == (self@.len() == 0),
    {
        self.docs.len() == 0
    }

    /// Adds one chunk.
    pub fn add(&mut self, chunk: &StoredChunk)
        ensures
            final(self)@ == old(self)@.push(doc_of(chunk@)),
    {
        let ts = tokenize(chunk.text.as_str());
        let doc = Doc {
            document_id: chunk.document_id.clone(),
            chunk_id: chunk.chunk_id,
            source: chunk.source.clone(),
            text: chunk.text.clone(),
            terms: ts,
        };
        let ghost before = self@;
        self.docs.push(doc);
        proof {
            assert(self@ =~= before.push(doc_of(chunk@)));
        }
    }

    /// Removes every chunk of a source. Returns how many there were.
    pub fn remove_source(&mut self, source: &str) -> (n: usize)
        ensures
            final(self)@ == without_source(old(self)@, source@),
            n == old(self)@.len() - final(self)@.len(),
    {
        let ghost all = self@;
        let ghost p = |d: DocView| d.source != source@;
        let before: usize = self.docs.len();
        let mut docs: Vec<Doc> = Vec::new();
        let mut kept: Vec<Doc> = Vec::new();
        std::mem::swap(&mut docs, &mut self.docs);
        proof {
            reveal(Seq::filter);
            assert(docs.deep_view() =~= all);
            assert(kept.deep_view() =~= all.take(0).filter(p));
        }
        for d in it: docs
            invariant
                all.len() == it.seq().len(),
                p == (|d: DocView| d.source != source@),
                forall|k: int| 0 <= k < all.len() ==> all[k] == (#[trigger] it.seq()[k])@,
                kept.deep_view() == all.take(it.index()).filter(p),
                kept@.len() <= it.index(),
        {
            let ghost so_far = kept.deep_view();
            proof {
                reveal(Seq::filter);
                let next = all.take(it.index() + 1);
                assert(next.drop_last() =~= all.take(it.index()));
                assert(next.last() == d@);
            }
            if !same_text(d.source.as_str(), source) {
                kept.push(d);
                proof {
                    assert(kept.deep_view() =~= so_far.push(d@));
                }
            }
        }
        proof {
            assert(all.take(all.len() as int) =~= all);
        }
        let n: usize = before - kept.len();
        self.docs = kept;
        n
    }

    /// The source and the text of every chunk, in the order in which they were
    /// added.
    pub fn all_chunks(&self) -> (r: Vec<(String, String)>)
        ensures
            r.deep_view() == self@.map_values(|d: DocView| (d.source, d.text)),
    {
        let mut r: Vec<(String, String)> = Vec::new();
        let mut i: usize = 0;
        while i < self.docs.len()
            invariant
                i <= self.docs@.len(),
                r@.len() == i,
                forall|k: int|
                    0 <= k < i ==> (#[trigger] r@[k]).0@ == self.docs@[k].source@ && r@[k].1@
                        == self.docs@[k].text@,
            decreases self.docs@.len() - i,
        {
            r.push((self.docs[i].source.clone(), self.docs[i].text.clone()));
            i = i + 1;
        }
        proof {
            assert(r.deep_view() =~= self@.map_values(|d: DocView| (d.source, d.text)));
        }
        r
    }

    fn doc_freq(&self, t: &str) -> (n: usize)
        ensures
            n == holders(self@, t@),
    {
        let ghost all = self@;
        let mut n: usize = 0;
        let mut i: usize = 0;
        proof {
            assert(all.take(0) =~= Seq::<DocView>::empty());
        }
        while i < self.docs.len()
            invariant
                i <= self.docs@.len(),
                n <= i,
                all == self@,
                all.len() == self.docs@.len(),
                n == holders(all.take(i as int), t@),
            decreases self.docs@.len() - i,
        {
            let doc = &self.docs[i];
            proof {
                use_type_invariant(doc);
                let next = all.take(i + 1);
                assert(next.drop_last() =~= all.take(i as int));
                assert(next.last() == doc@);
                lemma_occurrences(terms(doc.text@), t@);
            }
            if count_term(&doc.terms, t) > 0 {
                n = n + 1;
            }
            i = i + 1;
        }
        proof {
            assert(all.take(i as int) =~= all);
        }
        n
    }

    fn row(&self, i: usize, ts: &Vec<String>) -> (r: Vec<usize>)
        requires
            i < self@.len(),
        ensures
            r@.map_values(|n: usize| n as int) == counts(self@[i as int].text, ts.deep_view()),
    {
        let doc = &self.docs[i];
        proof {
            use_type_invariant(doc);
        }
        let mut r: Vec<usize> = Vec::new();
        let mut j: usize = 0;
        while j < ts.len()
            invariant
                j <= ts@.len(),
                doc.terms.deep_view() == terms(doc.text@),
                r@.len() == j,
                forall|k: int|
                    0 <= k < j ==> #[trigger] r@[k] == occurrences(terms(doc.text@), ts@[k]@),
            decreases ts@.len() - j,
        {
            r.push(count_term(&doc.terms, ts[j].as_str()));
            j = j + 1;
        }
        proof {
            assert(r@.map_values(|n: usize| n as int) =~= counts(doc.text@, ts.deep_view()));
        }
        r
    }

    /// The counts that BM25 weighs for a query.
    pub fn term_stats(&self, query: &str) -> (r: TermStats)
        ensures
            r.terms.deep_view() == query_terms(query@),
            r.lengths@.len() == self@.len(),
            forall|i: int|
                0 <= i < self@.len() ==> #[trigger] r.lengths@[i] == terms(self@[i].text).len(),
            r.doc_freq@.len() == query_terms(query@).len(),
            forall|i: int|
                0 <= i < r.doc_freq@.len() ==> #[trigger] r.doc_freq@[i] == holders(
                    self@,
                    query_terms(query@)[i],
                ),
            r.term_freq@.len() == self@.len(),
            forall|i: int|
                0 <= i < self@.len() ==> (#[trigger] r.term_freq@[i])@.map_values(|n: usize| n as int)
                    == counts(self@[i].text, query_terms(query@)),
    {
        let all = tokenize(query);
        let ts = set_of_texts(&all);
        let mut doc_freq: Vec<usize> = Vec::new();
        let mut j: usize = 0;
        while j < ts.len()
            invariant
                j <= ts@.len(),
                doc_freq@.len() == j,
                forall|k: int| 0 <= k < j ==> #[trigger] doc_freq@[k] == holders(self@, ts@[k]@),
            decreases ts@.len() - j,
        {
            doc_freq.push(self.doc_freq(ts[j].as_str()));
            j = j + 1;
        }
        let mut lengths: Vec<usize> = Vec::new();
        let mut term_freq: Vec<Vec<usize>> = Vec::new();
        let mut i: usize = 0;
        while i < self.docs.len()
            invariant
                i <= self.docs@.len(),
                self@.len() == self.docs@.len(),
                lengths@.len() == i,
                term_freq@.len() == i,
                forall|k: int|
                    0 <= k < i ==> #[trigger] lengths@[k] == terms(self@[k].text).len(),
                forall|k: int|
                    0 <= k < i ==> (#[trigger] term_freq@[k])@.map_values(|n: usize| n as int)
                        == counts(self@[k].text, ts.deep_view()),
            decreases self.docs@.len() - i,
        {
            let doc = &self.docs[i];
            proof {
                use_type_invariant(doc);
                assert(doc.terms.deep_view().len() == doc.terms@.len());
            }
            lengths.push(doc.terms.len());
            term_freq.push(self.row(i, &ts));
            i = i + 1;
        }
        proof {
            assert(ts.deep_view().len() == ts@.len());
        }
        TermStats { terms: ts, lengths: lengths, doc_freq: doc_freq, term_freq: term_freq }
    }

    fn shares_term(&self, i: usize, ts: &Vec<String>) -> (r: bool)
        requires
            i < self@.len(),
        ensures
            r == shares(self@[i as int].text, ts.deep_view()),
    {
        let doc = &self.docs[i];
        let ghost tv = ts.deep_view();
        proof {
            use_type_invariant(doc);
        }
        let mut j: usize = 0;
        while j < ts.len()
            invariant
                j <= ts@.len(),
                tv == ts.deep_view(),
                tv.len() == ts@.len(),
                doc.terms.deep_view() == terms(doc.text@),
                doc@ == self@[i as int],
                forall|k: int| 0 <= k < j ==> !terms(doc.text@).contains(#[trigger] tv[k]),
            decreases ts@.len() - j,
        {
            proof {
                lemma_occurrences(terms(doc.text@), ts@[j as int]@);
                assert(tv[j as int] == ts@[j as int]@);
            }
            if count_term(&doc.terms, ts[j].as_str()) > 0 {
                return true;
            }
            j = j + 1;
        }
        false
    }

    /// The best `k` chunks for a query, given what BM25 makes of the counts of
    /// each chunk. A chunk that shares no term with the query scores nothing.
    pub fn search(&self, query: &str, k: usize, scores: &[Score]) -> (r: Vec<Hit>)
        requires
            scores@.len() == self@.len(),
        ensures
            r.deep_view() == found(self@, query@, k as int, scores@),
    {
        let all = tokenize(query);
        let ts = set_of_texts(&all);
        let ghost docs = self@;
        let ghost tv = ts.deep_view();
        let mut hits: Vec<Hit> = Vec::new();
        let mut i: usize = 0;
        proof {
            assert(docs.take(0) =~= Seq::<DocView>::empty());
            assert(hits.deep_view() =~= Seq::<HitView>::empty());
        }
        while i < self.docs.len()
            invariant
                i <= self.docs@.len(),
                docs == self@,
                docs.len() == self.docs@.len(),
                scores@.len() == docs.len(),
                tv == ts.deep_view(),
                hits.deep_view() == scored(docs.take(i as int), tv, scores@),
            decreases self.docs@.len() - i,
        {
            let ghost before = hits.deep_view();
            proof {
                let next = docs.take(i + 1);
                assert(next.drop_last() =~= docs.take(i as int));
                assert(next.last() == docs[i as int]);
            }
            let score = scores[i];
            if self.shares_term(i, &ts) && score.is_positive() {
                let doc = &self.docs[i];
                let hit = Hit {
                    text: doc.text.clone(),
                    source: doc.source.clone(),
                    score: score,
                    document_id: doc.document_id.clone(),
                    chunk_id: doc.chunk_id,
                    retrieval: HitSource::Keyword,
                };
                hits.push(hit);
                proof {
                    assert(hits.deep_view() =~= before.push(hit_of(docs[i as int], score)));
                }
            }
            i = i + 1;
        }
        proof {
            assert(docs.take(i as int) =~= docs);
        }
        let mut ranked = stable_sort(hits);
        let ghost rv = ranked.deep_view();
        if ranked.len() > k {
            ranked.truncate(k);
            proof {
                assert(ranked.deep_view() =~= rv.take(k as int));
            }
        }
        ranked
    }
}

// ── Laws ─────────────────────────────────────────────────────────────────────

proof fn lemma_scored(docs: Seq<DocView>, ts: Seq<Seq<char>>, scores: Seq<Score>, i: int)
    requires
        0 <= i < scored(docs, ts, scores).len(),
    ensures
        scored(docs, ts, scores)[i].score.positive(),
        exists|j: int|
            0 <= j < docs.len() && shares((#[trigger] docs[j]).text, ts) && scored(
                docs,
                ts,
                scores,
            )[i] == hit_of(docs[j], scores[j]),
    decreases docs.len(),
{
    let d = docs.drop_last();
    let before = scored(d, ts, scores);
    if i < before.len() {
        lemma_scored(d, ts, scores, i);
        let j = choose|j: int|
            0 <= j < d.len() && shares((#[trigger] d[j]).text, ts) && before[i] == hit_of(
                d[j],
                scores[j],
            );
        assert(docs[j] == d[j]);
        assert(shares(docs[j].text, ts));
    } else {
        let j = docs.len() - 1;
        assert(docs[j] == docs.last());
        assert(shares(docs[j].text, ts));
    }
}

/// A search returns at most `k` hits, the best first, and each is a chunk that
/// shares a term with the query and has a score above zero.
pub proof fn keyword_hits_are_ranked(
    docs: Seq<DocView>,
    query: Seq<char>,
    k: int,
    scores: Seq<Score>,
)
    requires
        k >= 0,
        scores.len() == docs.len(),
    ensures
        found(docs, query, k, scores).len() <= k,
        forall|i: int, j: int|
            0 <= i < j < found(docs, query, k, scores).len() ==> (#[trigger] found(
                docs,
                query,
                k,
                scores,
            )[i]).score.rank() >= (#[trigger] found(docs, query, k, scores)[j]).score.rank(),
        forall|i: int|
            0 <= i < found(docs, query, k, scores).len() ==> (#[trigger] found(
                docs,
                query,
                k,
                scores,
            )[i]).score.positive() && exists|j: int|
                0 <= j < docs.len() && shares((#[trigger] docs[j]).text, query_terms(query))
                    && found(docs, query, k, scores)[i] == hit_of(docs[j], scores[j]),
{
    let ts = query_terms(query);
    let raw = scored(docs, ts, scores);
    let all = sorted_by(raw, by_score());
    let top = found(docs, query, k, scores);
    assert(is_order(by_score()));
    sorting_orders_and_keeps(raw, by_score());
    assert forall|i: int, j: int| 0 <= i < j < top.len() implies (#[trigger] top[i]).score.rank()
        >= (#[trigger] top[j]).score.rank() by {
        assert(by_score()(all[i], all[j]));
    }
    assert forall|i: int| 0 <= i < top.len() implies (#[trigger] top[i]).score.positive()
        && exists|j: int|
        0 <= j < docs.len() && shares((#[trigger] docs[j]).text, ts) && top[i] == hit_of(
            docs[j],
            scores[j],
        ) by {
        broadcast use vstd::seq_lib::group_to_multiset_ensures;

        assert(all[i] == top[i]);
        assert(all.contains(top[i]));
        assert(all.to_multiset().count(top[i]) > 0);
        assert(raw.to_multiset().count(top[i]) > 0);
        assert(raw.contains(top[i]));
        let m = choose|m: int| 0 <= m < raw.len() && raw[m] == top[i];
        lemma_scored(docs, ts, scores, m);
    }
}

proof fn lemma_scored_has(docs: Seq<DocView>, ts: Seq<Seq<char>>, scores: Seq<Score>, j: int)
    requires
        0 <= j < docs.len(),
        shares(docs[j].text, ts),
        scores[j].positive(),
    ensures
        scored(docs, ts, scores).contains(hit_of(docs[j], scores[j])),
        scored(docs, ts, scores).len() <= docs.len(),
    decreases docs.len(),
{
    let d = docs.drop_last();
    let before = scored(d, ts, scores);
    lemma_scored_len(d, ts, scores);
    if j < d.len() {
        lemma_scored_has(d, ts, scores, j);
        let k = choose|k: int| 0 <= k < before.len() && before[k] == hit_of(docs[j], scores[j]);
        assert(scored(docs, ts, scores)[k] == hit_of(docs[j], scores[j]));
    } else {
        assert(scored(docs, ts, scores)[before.len() as int] == hit_of(docs[j], scores[j]));
    }
}

/// There are no more scored chunks than chunks.
pub proof fn lemma_scored_len(docs: Seq<DocView>, ts: Seq<Seq<char>>, scores: Seq<Score>)
    ensures
        scored(docs, ts, scores).len() <= docs.len(),
    decreases docs.len(),
{
    if docs.len() > 0 {
        lemma_scored_len(docs.drop_last(), ts, scores);
    }
}

/// What is indexed is found: where enough hits are asked for, every chunk that
/// shares a term with the query and has a score above zero is among them.
pub proof fn indexed_chunks_are_found(
    docs: Seq<DocView>,
    query: Seq<char>,
    k: int,
    scores: Seq<Score>,
    j: int,
)
    requires
        k >= docs.len(),
        scores.len() == docs.len(),
        0 <= j < docs.len(),
        shares(docs[j].text, query_terms(query)),
        scores[j].positive(),
    ensures
        found(docs, query, k, scores).contains(hit_of(docs[j], scores[j])),
{
    broadcast use vstd::seq_lib::group_to_multiset_ensures;

    let raw = scored(docs, query_terms(query), scores);
    let all = sorted_by(raw, by_score());
    let h = hit_of(docs[j], scores[j]);
    lemma_scored_has(docs, query_terms(query), scores, j);
    assert(is_order(by_score()));
    sorting_orders_and_keeps(raw, by_score());
    assert(raw.to_multiset().count(h) > 0);
    assert(all.to_multiset().count(h) > 0);
    assert(all.contains(h));
}

/// A query of stopwords finds nothing.
pub proof fn no_terms_find_nothing(
    docs: Seq<DocView>,
    query: Seq<char>,
    k: int,
    scores: Seq<Score>,
)
    requires
        terms(query).len() == 0,
        k >= 0,
        scores.len() == docs.len(),
    ensures
        found(docs, query, k, scores).len() == 0,
{
    keyword_hits_are_ranked(docs, query, k, scores);
    if found(docs, query, k, scores).len() > 0 {
        let h = found(docs, query, k, scores)[0];
        assert(query_terms(query).len() == 0);
    }
}

/// After a source is removed no chunk of it is left, and every other chunk is.
pub proof fn removing_a_source_removes_it_only(docs: Seq<DocView>, source: Seq<char>)
    ensures
        forall|d: DocView| #[trigger]
            without_source(docs, source).contains(d) <==> docs.contains(d) && d.source != source,
{
    let p = |d: DocView| d.source != source;
    assert(without_source(docs, source) == docs.filter(p));
    assert forall|d: DocView| #[trigger] without_source(docs, source).contains(d) <==> docs.contains(
        d,
    ) && d.source != source by {
        if docs.filter(p).contains(d) {
            docs.lemma_filter_contains_rev(p, d);
            let k = choose|k: int| 0 <= k < docs.filter(p).len() && docs.filter(p)[k] == d;
            docs.lemma_filter_pred(p, k);
        }
        if docs.contains(d) && d.source != source {
            let k = choose|k: int| 0 <= k < docs.len() && docs[k] == d;
            docs.lemma_filter_contains(p, k);
        }
    }
}

} // verus!
