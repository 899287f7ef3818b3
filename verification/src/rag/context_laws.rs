//! What the document context of a turn holds, character by character.
use vstd::prelude::*;

use crate::config::ConfigView;
use crate::numbers::decimal;
use crate::order::{increasing, text_set_is_a_set};
use crate::rag::bm25::DocView;
use crate::rag::context::{
    all_cited, all_lowered, all_texts, best_called, call_len, calls, cited,
    contexts_keep_the_budget, first_step, fitting, heading, hit_sources, hit_texts, hits_context,
    key, sources_in, stacked, texts_from, the_longest_call_wins, total_chars, whole_documents,
    ContextView, StepView, NO_EVIDENCE,
};
use crate::rag::system::{configured_mode, configured_top_k, RetrievalQuery};
use crate::rag::types::{mode_name, HitSource, HitView, RetrievalMode};
use crate::search::{before_last, byte_len, contains};
use crate::text::lowered;
use crate::text_laws::{lemma_flatten_add, lemma_flatten_push};

verus! {

// ── Documents ────────────────────────────────────────────────────────────────

/// The texts of a document stand in the order of the index, each as often as it
/// is there.
pub proof fn documents_are_read_in_order(docs: Seq<DocView>, source: Seq<char>)
    ensures
        texts_from(docs, source) == docs.filter(|d: DocView| d.source == source).map_values(
            |d: DocView| d.text,
        ),
    decreases docs.len(),
{
    reveal(Seq::filter);
    let p = |d: DocView| d.source == source;
    let f = |d: DocView| d.text;
    if docs.len() == 0 {
        assert(texts_from(docs, source) =~= docs.filter(p).map_values(f));
    } else {
        let d = docs.drop_last();
        documents_are_read_in_order(d, source);
        if p(docs.last()) {
            assert(d.filter(p).push(docs.last()).map_values(f) =~= d.filter(p).map_values(f).push(
                docs.last().text,
            ));
        }
    }
}

/// The first place of a source among the chunks.
pub open spec fn first_seen(docs: Seq<DocView>, source: Seq<char>, k: int) -> bool {
    &&& 0 <= k < docs.len()
    &&& docs[k].source == source
    &&& forall|m: int| 0 <= m < k ==> (#[trigger] docs[m]).source != source
}

/// The documents are the sources of the chunks, each once, in the order in which
/// they are first seen.
pub proof fn documents_are_listed_once(docs: Seq<DocView>)
    ensures
        sources_in(docs).no_duplicates(),
        forall|s: Seq<char>| #[trigger]
            sources_in(docs).contains(s) <==> exists|k: int|
                0 <= k < docs.len() && (#[trigger] docs[k]).source == s,
        forall|i: int, j: int, a: int, b: int|
            0 <= i < j < sources_in(docs).len() && #[trigger] first_seen(
                docs,
                sources_in(docs)[i],
                a,
            ) && #[trigger] first_seen(docs, sources_in(docs)[j], b) ==> a < b,
    decreases docs.len(),
{
    if docs.len() > 0 {
        let d = docs.drop_last();
        let before = sources_in(d);
        let all = sources_in(docs);
        let n = docs.len() - 1;
        documents_are_listed_once(d);
        assert forall|s: Seq<char>| #[trigger] all.contains(s) <==> exists|k: int|
            0 <= k < docs.len() && (#[trigger] docs[k]).source == s by {
            if before.contains(s) {
                let k = choose|k: int| 0 <= k < d.len() && (#[trigger] d[k]).source == s;
                assert(docs[k].source == s);
                let i = choose|i: int| 0 <= i < before.len() && before[i] == s;
                assert(all[i] == s);
            }
            if s == docs.last().source {
                assert(docs[n].source == s);
                if !before.contains(s) {
                    assert(all[before.len() as int] == s);
                }
            }
            if all.contains(s) && !before.contains(s) {
                let i = choose|i: int| 0 <= i < all.len() && all[i] == s;
                if i < before.len() {
                    assert(before[i] == s);
                }
            }
            if (exists|k: int| 0 <= k < docs.len() && (#[trigger] docs[k]).source == s) {
                let k = choose|k: int| 0 <= k < docs.len() && (#[trigger] docs[k]).source == s;
                if k < n {
                    assert(d[k].source == s);
                    assert(before.contains(s));
                }
            }
        }
        assert forall|i: int, j: int, a: int, b: int|
            0 <= i < j < all.len() && #[trigger] first_seen(docs, all[i], a)
                && #[trigger] first_seen(docs, all[j], b) implies a < b by {
            assert(before[i] == all[i]);
            assert(before.contains(all[i]));
            let k = choose|k: int| 0 <= k < d.len() && (#[trigger] d[k]).source == all[i];
            if a == n {
                assert(docs[k].source == all[i]);
            }
            assert(first_seen(d, before[i], a)) by {
                assert forall|m: int| 0 <= m < a implies (#[trigger] d[m]).source != before[i] by {
                    assert(docs[m].source != all[i]);
                }
            }
            if b < n {
                assert(d[b].source == all[j]);
                assert(before.contains(all[j]));
                assert(j < before.len()) by {
                    if j >= before.len() {
                        assert(all[j] == docs.last().source);
                    }
                }
                assert(first_seen(d, before[j], b)) by {
                    assert forall|m: int| 0 <= m < b implies (#[trigger] d[m]).source
                        != before[j] by {
                        assert(docs[m].source != all[j]);
                    }
                }
            }
        }
    }
}

// ── Texts ────────────────────────────────────────────────────────────────────

proof fn lemma_stacked(texts: Seq<Seq<char>>)
    ensures
        stacked(texts) == texts.map_values(|t: Seq<char>| t + "\n"@).flatten(),
    decreases texts.len(),
{
    let f = |t: Seq<char>| t + "\n"@;
    if texts.len() == 0 {
        assert(texts.map_values(f).flatten() =~= Seq::<char>::empty());
    } else {
        let d = texts.drop_last();
        lemma_stacked(d);
        assert(texts.map_values(f) =~= d.map_values(f).push(f(texts.last())));
        lemma_flatten_push(d.map_values(f), f(texts.last()));
        assert(stacked(texts) =~= texts.map_values(f).flatten());
    }
}

proof fn lemma_total(texts: Seq<Seq<char>>)
    ensures
        total_chars(texts) == texts.flatten().len(),
    decreases texts.len(),
{
    if texts.len() == 0 {
        assert(texts.flatten() =~= Seq::<char>::empty());
    } else {
        let d = texts.drop_last();
        lemma_total(d);
        lemma_flatten_push(d, texts.last());
        assert(d.push(texts.last()) =~= texts);
    }
}

proof fn lemma_flatten_grows(texts: Seq<Seq<char>>, a: int, b: int)
    requires
        0 <= a <= b <= texts.len(),
    ensures
        texts.take(a).flatten().len() <= texts.take(b).flatten().len(),
{
    lemma_flatten_add(texts.take(a), texts.subrange(a, b));
    assert(texts.take(a) + texts.subrange(a, b) =~= texts.take(b));
}

/// As many of the texts as 32000 characters hold, from the first on.
pub open spec fn as_many_as_fit(texts: Seq<Seq<char>>, n: int) -> bool {
    &&& 0 <= n <= texts.len()
    &&& texts.take(n).flatten().len() <= 32_000
    &&& n < texts.len() ==> texts.take(n + 1).flatten().len() > 32_000
}

proof fn lemma_fitting_is(texts: Seq<Seq<char>>, n: int)
    requires
        as_many_as_fit(texts, n),
    ensures
        fitting(texts, 32_000) == n,
{
    contexts_keep_the_budget(texts, 32_000);
    let m = fitting(texts, 32_000) as int;
    lemma_total(texts.take(m));
    if m < texts.len() {
        lemma_total(texts.take(m + 1));
    }
    if m < n {
        lemma_flatten_grows(texts, m + 1, n);
    }
    if n < m {
        lemma_flatten_grows(texts, n + 1, m);
    }
}

// ── Contexts of documents ────────────────────────────────────────────────────

/// A document under its heading: its texts, each on a line of its own.
pub open spec fn under_heading(source: Seq<char>, texts: Seq<Seq<char>>) -> Seq<char> {
    "\n===== DOCUMENT: "@ + source + " =====\n"@ + texts.map_values(
        |t: Seq<char>| t + "\n"@,
    ).flatten()
}

/// A message that names a document gets that document alone: under its heading as
/// many of its texts as fit, in the order of the index, and the rest is left out.
pub proof fn a_named_document_is_given(
    docs: Seq<DocView>,
    c: ConfigView,
    message: Seq<char>,
    source: Seq<char>,
    n: int,
)
    requires
        docs.len() > 0,
        best_called(lowered(message), all_lowered(sources_in(docs))) >= 0,
        source == sources_in(docs)[best_called(lowered(message), all_lowered(sources_in(docs)))],
        as_many_as_fit(
            docs.filter(|d: DocView| d.source == source).map_values(|d: DocView| d.text),
            n,
        ),
    ensures
        ({
            let texts = docs.filter(|d: DocView| d.source == source).map_values(
                |d: DocView| d.text,
            );
            first_step(docs, c, message) == StepView::Done(
                ContextView {
                    text: under_heading(source, texts.take(n)),
                    sources: seq![source],
                    truncated: n < texts.len(),
                },
            )
        }),
{
    documents_are_read_in_order(docs, source);
    let texts = texts_from(docs, source);
    lemma_fitting_is(texts, n);
    lemma_stacked(texts.take(n));
    assert(under_heading(source, texts.take(n)) =~= heading(source) + stacked(texts.take(n)));
}

proof fn lemma_whole(docs: Seq<DocView>, sources: Seq<Seq<char>>)
    ensures
        whole_documents(docs, sources) == sources.map_values(
            |s: Seq<char>|
                under_heading(
                    s,
                    docs.filter(|d: DocView| d.source == s).map_values(|d: DocView| d.text),
                ),
        ).flatten(),
    decreases sources.len(),
{
    let f = |s: Seq<char>|
        under_heading(s, docs.filter(|d: DocView| d.source == s).map_values(|d: DocView| d.text));
    if sources.len() == 0 {
        assert(sources.map_values(f).flatten() =~= Seq::<char>::empty());
    } else {
        let d = sources.drop_last();
        let s = sources.last();
        lemma_whole(docs, d);
        documents_are_read_in_order(docs, s);
        lemma_stacked(texts_from(docs, s));
        assert(f(s) =~= heading(s) + stacked(texts_from(docs, s)));
        assert(sources.map_values(f) =~= d.map_values(f).push(f(s)));
        lemma_flatten_push(d.map_values(f), f(s));
        assert(whole_documents(docs, sources) =~= sources.map_values(f).flatten());
    }
}

/// Where the message names no document, a library of at most 32000 characters is
/// given whole, document by document, in the order in which they are first seen;
/// and of a larger one the settings say what is retrieved.
pub proof fn other_messages_get_the_library_or_hits(
    docs: Seq<DocView>,
    c: ConfigView,
    message: Seq<char>,
)
    requires
        docs.len() > 0,
        best_called(lowered(message), all_lowered(sources_in(docs))) < 0,
    ensures
        docs.map_values(|d: DocView| d.text).flatten().len() <= 32_000 ==> first_step(
            docs,
            c,
            message,
        ) == StepView::Done(
            ContextView {
                text: sources_in(docs).map_values(
                    |s: Seq<char>|
                        under_heading(
                            s,
                            docs.filter(|d: DocView| d.source == s).map_values(
                                |d: DocView| d.text,
                            ),
                        ),
                ).flatten(),
                sources: sources_in(docs),
                truncated: false,
            },
        ),
        docs.map_values(|d: DocView| d.text).flatten().len() > 32_000 ==> first_step(
            docs,
            c,
            message,
        ) == StepView::Retrieve(
            RetrievalQuery { mode: configured_mode(c), top_k: configured_top_k(c) },
        ),
{
    assert(all_texts(docs) =~= docs.map_values(|d: DocView| d.text));
    lemma_total(all_texts(docs));
    lemma_whole(docs, sources_in(docs));
}

/// Without documents the context is empty.
pub proof fn an_empty_library_gives_nothing(docs: Seq<DocView>, c: ConfigView, message: Seq<char>)
    requires
        docs.len() == 0,
    ensures
        first_step(docs, c, message) == StepView::Done(
            ContextView { text: Seq::empty(), sources: Seq::empty(), truncated: false },
        ),
{
}

// ── Names ────────────────────────────────────────────────────────────────────

/// The message calls a document by `k`: its name, its name without the extension,
/// or that with spaces for underscores and hyphens; `k` takes at least three bytes
/// and stands in the message. All is in lower case.
pub open spec fn calls_by(msg: Seq<char>, name: Seq<char>, k: Seq<char>) -> bool {
    &&& k == name || k == before_last(name, '.') || k == before_last(name, '.').map_values(
        |c: char|
            if c == '_' || c == '-' {
                ' '
            } else {
                c
            },
    )
    &&& byte_len(k) >= 3
    &&& contains(msg, k)
}

proof fn lemma_call_len(msg: Seq<char>, name: Seq<char>) -> (k: Seq<char>)
    ensures
        call_len(msg, name) > 0 ==> calls_by(msg, name, k) && call_len(msg, name) == byte_len(k),
        forall|x: Seq<char>| #[trigger]
            calls_by(msg, name, x) ==> byte_len(x) <= call_len(msg, name),
{
    let a = key(name, 0);
    let b = key(name, 1);
    let c = key(name, 2);
    if calls(msg, c) && byte_len(c) == call_len(msg, name) {
        c
    } else if calls(msg, b) && byte_len(b) == call_len(msg, name) {
        b
    } else {
        a
    }
}

/// The document that a message names is the one it calls by the longest key; of
/// several that it calls by as long a one, the first. It names none if and only if
/// it calls none.
pub proof fn a_message_names_by_the_longest_key(msg: Seq<char>, names: Seq<Seq<char>>)
    ensures
        ({
            let i = best_called(msg, names);
            &&& -1 <= i < names.len()
            &&& i < 0 ==> forall|j: int, k: Seq<char>|
                0 <= j < names.len() ==> !#[trigger] calls_by(msg, names[j], k)
            &&& i >= 0 ==> exists|k: Seq<char>| #[trigger]
                calls_by(msg, names[i], k) && forall|j: int, x: Seq<char>|
                    0 <= j < names.len() && #[trigger] calls_by(msg, names[j], x) ==> byte_len(x)
                        <= byte_len(k) && (j < i ==> byte_len(x) < byte_len(k))
        }),
{
    let i = best_called(msg, names);
    the_longest_call_wins(msg, names);
    if i < 0 {
        assert forall|j: int, k: Seq<char>| 0 <= j < names.len() implies !#[trigger] calls_by(
            msg,
            names[j],
            k,
        ) by {
            let w = lemma_call_len(msg, names[j]);
        }
    } else {
        let k = lemma_call_len(msg, names[i]);
        assert(calls_by(msg, names[i], k));
        assert forall|j: int, x: Seq<char>|
            0 <= j < names.len() && #[trigger] calls_by(msg, names[j], x) implies byte_len(x)
            <= byte_len(k) && (j < i ==> byte_len(x) < byte_len(k)) by {
            let w = lemma_call_len(msg, names[j]);
        }
    }
}

// ── Contexts of hits ─────────────────────────────────────────────────────────

/// A hit as it is cited: a line that tells its source, its number, what found it
/// and its score, then its text.
pub open spec fn citation(h: HitView, score: Seq<char>) -> Seq<char> {
    "\n----- from "@ + h.source + " (chunk "@ + decimal(h.chunk_id as nat) + ", "@ + (
    match h.retrieval {
        HitSource::Keyword => "keyword"@,
        HitSource::Vector => "semantic"@,
        HitSource::Hybrid => "hybrid"@,
    }) + " match, score "@ + score + ") -----\n"@ + h.text + "\n"@
}

proof fn lemma_all_cited(hits: Seq<HitView>, scores: Seq<Seq<char>>)
    ensures
        all_cited(hits, scores) == hits.map(
            |i: int, h: HitView| citation(h, scores[i]),
        ).flatten(),
    decreases hits.len(),
{
    let f = |i: int, h: HitView| citation(h, scores[i]);
    if hits.len() == 0 {
        assert(hits.map(f).flatten() =~= Seq::<char>::empty());
    } else {
        let d = hits.drop_last();
        let n = hits.len() - 1;
        lemma_all_cited(d, scores);
        assert(hits.map(f) =~= d.map(f).push(f(n, hits.last())));
        lemma_flatten_push(d.map(f), f(n, hits.last()));
        assert(cited(hits.last(), scores[n]) =~= f(n, hits.last()));
    }
}

/// Confident hits are cited in their order, as many as fit, under a line that
/// names the mode; their sources are listed each once, in increasing order; and
/// the context counts as cut.
pub proof fn hits_are_cited_in_order(
    hits: Seq<HitView>,
    mode: RetrievalMode,
    scores: Seq<Seq<char>>,
    n: int,
)
    requires
        hits.len() > 0,
        as_many_as_fit(hits.map_values(|h: HitView| h.text), n),
    ensures
        ({
            let x = hits_context(hits, mode, true, scores);
            &&& x.text
                == "\n(The most relevant excerpts from your documents, retrieved by "@ + mode_name(
                mode,
            ) + " search. Each is labelled with its source so you can cite it.)\n"@ + hits.take(
                n,
            ).map(|i: int, h: HitView| citation(h, scores[i])).flatten()
            &&& x.truncated
            &&& increasing(x.sources)
            &&& forall|s: Seq<char>| #[trigger]
                x.sources.contains(s) <==> exists|i: int|
                    0 <= i < n && (#[trigger] hits[i]).source == s
        }),
{
    let texts = hits.map_values(|h: HitView| h.text);
    assert(texts =~= hit_texts(hits));
    lemma_fitting_is(texts, n);
    lemma_all_cited(hits.take(n), scores);
    let used = hit_sources(hits.take(n));
    text_set_is_a_set(used);
    let x = hits_context(hits, mode, true, scores);
    assert forall|s: Seq<char>| #[trigger] x.sources.contains(s) <==> exists|i: int|
        0 <= i < n && (#[trigger] hits[i]).source == s by {
        if used.contains(s) {
            let i = choose|i: int| 0 <= i < used.len() && used[i] == s;
            assert(hits[i].source == s);
        }
        if (exists|i: int| 0 <= i < n && (#[trigger] hits[i]).source == s) {
            let i = choose|i: int| 0 <= i < n && (#[trigger] hits[i]).source == s;
            assert(used[i] == s);
        }
    }
}

/// Where there is no evidence, or no hit, the model is told so and nothing is
/// listed.
pub proof fn lack_of_evidence_is_told(
    hits: Seq<HitView>,
    mode: RetrievalMode,
    confident: bool,
    scores: Seq<Seq<char>>,
)
    requires
        !confident || hits.len() == 0,
    ensures
        hits_context(hits, mode, confident, scores) == (ContextView {
            text: NO_EVIDENCE@,
            sources: Seq::empty(),
            truncated: true,
        }),
{
}

/// Names are compared in lower case, one by one.
pub proof fn names_are_compared_in_lower_case(names: Seq<Seq<char>>, i: int)
    requires
        0 <= i < names.len(),
    ensures
        all_lowered(names).len() == names.len(),
        all_lowered(names)[i] == lowered(names[i]),
{
}

} // verus!
