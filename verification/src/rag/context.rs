//! The document context that is put in front of the model each turn.
//!
//! A message that names a document gets that document; a library that fits the
//! budget is given whole; from a larger one the best hits are given, or a note
//! that there is not enough evidence.
use vstd::prelude::*;

use crate::config::{Config, ConfigView};
use crate::numbers::{decimal, push_decimal};
use crate::order::{set_of_texts, text_set};
use crate::rag::bm25::DocView;
use crate::rag::chunk::clen;
use crate::rag::system::{
    configured_mode, configured_top_k, top_k_of, RagSystem, RetrievalQuery, RetrievalResult,
};
use crate::rag::types::{mode_name, HitSource, HitView, RetrievalMode};
use crate::search::{
    at, before_last, byte_len, bytes_in, contains, same_text, text_before_last, text_contains,
};
use crate::text::{chars_of, lower, lowered};

verus! {

/// How many characters of document text go into a context.
pub const CONTEXT_CHAR_BUDGET: usize = 32_000;

// ── Documents that a message names ───────────────────────────────────────────

/// `s` with spaces in place of underscores and hyphens.
pub open spec fn spaced(s: Seq<char>) -> Seq<char> {
    s.map_values(
        |c: char|
            if c == '_' || c == '-' {
                ' '
            } else {
                c
            },
    )
}

/// `s` with spaces in place of underscores and hyphens.
fn with_spaces(s: &str) -> (r: String)
    ensures
        r@ == spaced(s@),
{
    let cs = chars_of(s);
    let mut r = String::new();
    let mut i: usize = 0;
    while i < cs.len()
        invariant
            i <= cs@.len(),
            r@ == spaced(cs@.take(i as int)),
        decreases cs@.len() - i,
    {
        let c = if cs[i] == '_' || cs[i] == '-' {
            ' '
        } else {
            cs[i]
        };
        r.push(c);
        proof {
            assert(r@ =~= spaced(cs@.take(i + 1)));
        }
        i = i + 1;
    }
    proof {
        assert(cs@.take(i as int) =~= cs@);
    }
    r
}

/// What a document can be called by, given its name in lower case: the name, the
/// name without its extension, and that with spaces.
pub open spec fn key(name: Seq<char>, j: int) -> Seq<char> {
    if j == 0 {
        name
    } else if j == 1 {
        before_last(name, '.')
    } else {
        spaced(before_last(name, '.'))
    }
}

/// A message calls a document by a key: one of at least three bytes that stands
/// in the message.
pub open spec fn calls(msg: Seq<char>, k: Seq<char>) -> bool {
    byte_len(k) >= 3 && contains(msg, k)
}

/// The length of the longest key of a document that the message calls it by, or
/// 0.
pub open spec fn call_len(msg: Seq<char>, name: Seq<char>) -> nat {
    let a = if calls(msg, key(name, 0)) {
        byte_len(key(name, 0))
    } else {
        0
    };
    let b = if calls(msg, key(name, 1)) {
        byte_len(key(name, 1))
    } else {
        0
    };
    let c = if calls(msg, key(name, 2)) {
        byte_len(key(name, 2))
    } else {
        0
    };
    let ab = if b > a {
        b
    } else {
        a
    };
    if c > ab {
        c
    } else {
        ab
    }
}

/// Which of the names the message calls by the longest key; the first of them if
/// there are several, and -1 if it calls none.
pub open spec fn best_called(msg: Seq<char>, names: Seq<Seq<char>>) -> int
    decreases names.len(),
{
    if names.len() == 0 {
        -1
    } else {
        let before = best_called(msg, names.drop_last());
        let best = if before < 0 {
            0
        } else {
            call_len(msg, names[before])
        };
        if call_len(msg, names.last()) > best {
            names.len() - 1
        } else {
            before
        }
    }
}

fn called_by(msg: &str, k: &str) -> (n: usize)
    ensures
        n == if calls(msg@, k@) {
            byte_len(k@)
        } else {
            0
        },
{
    let n = bytes_in(k);
    if n >= 3 && text_contains(msg, k) {
        n
    } else {
        0
    }
}

fn longest_call(msg: &str, name: &str) -> (n: usize)
    ensures
        n == call_len(msg@, name@),
{
    let stem = text_before_last(name, '.');
    let stem_spaced = with_spaces(stem.as_str());
    let a = called_by(msg, name);
    let b = called_by(msg, stem.as_str());
    let c = called_by(msg, stem_spaced.as_str());
    let ab = if b > a {
        b
    } else {
        a
    };
    if c > ab {
        c
    } else {
        ab
    }
}

/// Which of the documents a message calls by the longest key, all in lower case.
pub fn find_called(msg: &str, names: &[String]) -> (r: Option<usize>)
    ensures
        match r {
            Some(i) => i < names@.len() && best_called(msg@, names.deep_view()) == i,
            None => best_called(msg@, names.deep_view()) == -1,
        },
{
    let ghost all = names.deep_view();
    let mut r: Option<usize> = None;
    let mut best: usize = 0;
    let mut i: usize = 0;
    proof {
        assert(all.take(0) =~= Seq::<Seq<char>>::empty());
    }
    while i < names.len()
        invariant
            i <= names@.len(),
            all == names.deep_view(),
            all.len() == names@.len(),
            match r {
                Some(k) => k < i && best_called(msg@, all.take(i as int)) == k && best == call_len(
                    msg@,
                    all[k as int],
                ),
                None => best_called(msg@, all.take(i as int)) == -1 && best == 0,
            },
        decreases names@.len() - i,
    {
        proof {
            let next = all.take(i + 1);
            assert(next.drop_last() =~= all.take(i as int));
            assert(next.last() == names@[i as int]@);
        }
        let n = longest_call(msg, names[i].as_str());
        if n > best {
            r = Some(i);
            best = n;
        }
        i = i + 1;
    }
    proof {
        assert(all.take(i as int) =~= all);
    }
    r
}

/// The texts in lower case.
pub open spec fn all_lowered(texts: Seq<Seq<char>>) -> Seq<Seq<char>> {
    texts.map_values(|t: Seq<char>| lowered(t))
}

/// The document that a message names, if any.
pub fn matched_document(message: &str, sources: &[String]) -> (r: Option<String>)
    ensures
        match r {
            Some(s) => {
                let i = best_called(lowered(message@), all_lowered(sources.deep_view()));
                0 <= i < sources@.len() && s@ == sources.deep_view()[i]
            },
            None => best_called(lowered(message@), all_lowered(sources.deep_view())) == -1,
        },
{
    let msg = lower(message);
    let mut names: Vec<String> = Vec::new();
    let mut i: usize = 0;
    while i < sources.len()
        invariant
            i <= sources@.len(),
            names@.len() == i,
            forall|k: int| 0 <= k < i ==> (#[trigger] names@[k])@ == lowered(sources@[k]@),
        decreases sources@.len() - i,
    {
        names.push(lower(sources[i].as_str()));
        i = i + 1;
    }
    proof {
        assert(names.deep_view() =~= all_lowered(sources.deep_view()));
    }
    match find_called(msg.as_str(), &names) {
        Some(k) => Some(sources[k].clone()),
        None => None,
    }
}

// ── Texts within the budget ──────────────────────────────────────────────────

/// How many texts at the front fit a budget of characters, one after the other.
pub open spec fn fitting(texts: Seq<Seq<char>>, budget: int) -> nat
    decreases texts.len(),
{
    if texts.len() == 0 || texts[0].len() > budget {
        0
    } else {
        1 + fitting(texts.drop_first(), budget - texts[0].len())
    }
}

/// The characters of all texts.
pub open spec fn total_chars(texts: Seq<Seq<char>>) -> nat
    decreases texts.len(),
{
    if texts.len() == 0 {
        0
    } else {
        total_chars(texts.drop_last()) + texts.last().len()
    }
}

/// The texts, each with a line feed behind it.
pub open spec fn stacked(texts: Seq<Seq<char>>) -> Seq<char>
    decreases texts.len(),
{
    if texts.len() == 0 {
        Seq::empty()
    } else {
        stacked(texts.drop_last()) + texts.last() + "\n"@
    }
}

fn push_stacked(out: &mut String, texts: &[String], n: usize)
    requires
        n <= texts@.len(),
    ensures
        final(out)@ == old(out)@ + stacked(texts.deep_view().take(n as int)),
{
    let ghost all = texts.deep_view();
    let ghost before = out@;
    let mut i: usize = 0;
    proof {
        assert(all.take(0) =~= Seq::<Seq<char>>::empty());
        assert(before + Seq::<char>::empty() =~= before);
    }
    while i < n
        invariant
            i <= n <= texts@.len(),
            all == texts.deep_view(),
            all.len() == texts@.len(),
            out@ == before + stacked(all.take(i as int)),
        decreases n - i,
    {
        proof {
            let next = all.take(i + 1);
            assert(next.drop_last() =~= all.take(i as int));
            assert(next.last() == texts@[i as int]@);
        }
        out.push_str(texts[i].as_str());
        out.push_str("\n");
        proof {
            assert(out@ =~= before + stacked(all.take(i + 1)));
        }
        i = i + 1;
    }
}

fn count_fitting(texts: &[String], budget: usize) -> (n: usize)
    ensures
        n == fitting(texts.deep_view(), budget as int),
        n <= texts@.len(),
{
    let ghost all = texts.deep_view();
    let mut left: usize = budget;
    let mut i: usize = 0;
    proof {
        assert(all.skip(0) =~= all);
    }
    while i < texts.len()
        invariant
            i <= texts@.len(),
            all == texts.deep_view(),
            all.len() == texts@.len(),
            fitting(all, budget as int) == i + fitting(all.skip(i as int), left as int),
        decreases texts@.len() - i,
    {
        let n = clen(texts[i].as_str());
        proof {
            assert(all.skip(i as int)[0] == texts@[i as int]@);
            assert(all.skip(i as int).drop_first() =~= all.skip(i + 1));
        }
        if n > left {
            return i;
        }
        left = left - n;
        i = i + 1;
    }
    i
}

fn fits_budget(texts: &[String], budget: usize) -> (r: bool)
    ensures
        r == (total_chars(texts.deep_view()) <= budget),
{
    let ghost all = texts.deep_view();
    let mut used: usize = 0;
    let mut i: usize = 0;
    proof {
        assert(all.take(0) =~= Seq::<Seq<char>>::empty());
    }
    while i < texts.len()
        invariant
            i <= texts@.len(),
            all == texts.deep_view(),
            all.len() == texts@.len(),
            used == total_chars(all.take(i as int)),
            used <= budget,
        decreases texts@.len() - i,
    {
        let n = clen(texts[i].as_str());
        proof {
            let next = all.take(i + 1);
            assert(next.drop_last() =~= all.take(i as int));
            assert(next.last() == texts@[i as int]@);
        }
        if n > budget - used {
            proof {
                lemma_total_grows(all, i + 1);
            }
            return false;
        }
        used = used + n;
        i = i + 1;
    }
    proof {
        assert(all.take(i as int) =~= all);
    }
    true
}

proof fn lemma_total_grows(texts: Seq<Seq<char>>, n: int)
    requires
        0 <= n <= texts.len(),
    ensures
        total_chars(texts.take(n)) <= total_chars(texts),
    decreases texts.len() - n,
{
    if n < texts.len() {
        assert(texts.take(n + 1).drop_last() =~= texts.take(n));
        lemma_total_grows(texts, n + 1);
    } else {
        assert(texts.take(n) =~= texts);
    }
}

// ── Documents ────────────────────────────────────────────────────────────────

/// The sources of chunks, each once, in the order in which they are first seen.
pub open spec fn sources_in(docs: Seq<DocView>) -> Seq<Seq<char>>
    decreases docs.len(),
{
    if docs.len() == 0 {
        Seq::empty()
    } else {
        let before = sources_in(docs.drop_last());
        if before.contains(docs.last().source) {
            before
        } else {
            before.push(docs.last().source)
        }
    }
}

/// The texts of the chunks of a source, in order.
pub open spec fn texts_from(docs: Seq<DocView>, source: Seq<char>) -> Seq<Seq<char>>
    decreases docs.len(),
{
    if docs.len() == 0 {
        Seq::empty()
    } else {
        let before = texts_from(docs.drop_last(), source);
        if docs.last().source == source {
            before.push(docs.last().text)
        } else {
            before
        }
    }
}

/// The texts of all chunks.
pub open spec fn all_texts(docs: Seq<DocView>) -> Seq<Seq<char>> {
    docs.map_values(|d: DocView| d.text)
}

/// The heading of a document.
pub open spec fn heading(source: Seq<char>) -> Seq<char> {
    "\n===== DOCUMENT: "@ + source + " =====\n"@
}

fn push_heading(out: &mut String, source: &str)
    ensures
        final(out)@ == old(out)@ + heading(source@),
{
    out.push_str("\n===== DOCUMENT: ");
    out.push_str(source);
    out.push_str(" =====\n");
    proof {
        assert(out@ =~= old(out)@ + heading(source@));
    }
}

/// The documents of the given sources in full, one after the other.
pub open spec fn whole_documents(docs: Seq<DocView>, sources: Seq<Seq<char>>) -> Seq<char>
    decreases sources.len(),
{
    if sources.len() == 0 {
        Seq::empty()
    } else {
        whole_documents(docs, sources.drop_last()) + heading(sources.last()) + stacked(
            texts_from(docs, sources.last()),
        )
    }
}

/// The chunks as pairs of source and text.
pub open spec fn pairs(docs: Seq<DocView>) -> Seq<(Seq<char>, Seq<char>)> {
    docs.map_values(|d: DocView| (d.source, d.text))
}

fn list_sources_in(chunks: &Vec<(String, String)>, Ghost(docs): Ghost<Seq<DocView>>) -> (r: Vec<
    String,
>)
    requires
        chunks.deep_view() == pairs(docs),
    ensures
        r.deep_view() == sources_in(docs),
{
    let mut r: Vec<String> = Vec::new();
    let mut i: usize = 0;
    proof {
        assert(docs.take(0) =~= Seq::<DocView>::empty());
        assert(r.deep_view() =~= Seq::<Seq<char>>::empty());
        assert(chunks.deep_view().len() == chunks@.len());
    }
    while i < chunks.len()
        invariant
            i <= chunks@.len(),
            chunks@.len() == docs.len(),
            chunks.deep_view() == pairs(docs),
            r.deep_view() == sources_in(docs.take(i as int)),
        decreases chunks@.len() - i,
    {
        let ghost before = r.deep_view();
        proof {
            let next = docs.take(i + 1);
            assert(next.drop_last() =~= docs.take(i as int));
            assert(next.last() == docs[i as int]);
            assert(chunks.deep_view()[i as int] == (docs[i as int].source, docs[i as int].text));
        }
        let mut known: bool = false;
        let mut k: usize = 0;
        while k < r.len()
            invariant
                k <= r@.len(),
                i < chunks@.len(),
                before == r.deep_view(),
                before.len() == r@.len(),
                known == before.take(k as int).contains(chunks@[i as int].0@),
            decreases r@.len() - k,
        {
            proof {
                let t = before.take(k + 1);
                assert(t.last() == r@[k as int]@);
                assert(t =~= before.take(k as int).push(r@[k as int]@));
                let x = chunks@[i as int].0@;
                if before.take(k as int).contains(x) {
                    let m = choose|m: int| 0 <= m < k && before.take(k as int)[m] == x;
                    assert(t[m] == x);
                }
                if r@[k as int]@ == x {
                    assert(t[k as int] == x);
                }
                if t.contains(x) && r@[k as int]@ != x {
                    let m = choose|m: int| 0 <= m < t.len() && t[m] == x;
                    assert(before.take(k as int)[m] == x);
                }
            }
            if same_text(r[k].as_str(), chunks[i].0.as_str()) {
                known = true;
            }
            k = k + 1;
        }
        proof {
            assert(before.take(k as int) =~= before);
        }
        if !known {
            let s = chunks[i].0.clone();
            r.push(s);
            proof {
                assert(r.deep_view() =~= before.push(s@));
            }
        }
        i = i + 1;
    }
    proof {
        assert(docs.take(i as int) =~= docs);
    }
    r
}

fn list_texts_from(
    chunks: &Vec<(String, String)>,
    source: &str,
    Ghost(docs): Ghost<Seq<DocView>>,
) -> (r: Vec<String>)
    requires
        chunks.deep_view() == pairs(docs),
    ensures
        r.deep_view() == texts_from(docs, source@),
{
    let mut r: Vec<String> = Vec::new();
    let mut i: usize = 0;
    proof {
        assert(docs.take(0) =~= Seq::<DocView>::empty());
        assert(r.deep_view() =~= Seq::<Seq<char>>::empty());
        assert(chunks.deep_view().len() == chunks@.len());
    }
    while i < chunks.len()
        invariant
            i <= chunks@.len(),
            chunks@.len() == docs.len(),
            chunks.deep_view() == pairs(docs),
            r.deep_view() == texts_from(docs.take(i as int), source@),
        decreases chunks@.len() - i,
    {
        let ghost before = r.deep_view();
        proof {
            let next = docs.take(i + 1);
            assert(next.drop_last() =~= docs.take(i as int));
            assert(next.last() == docs[i as int]);
            assert(chunks.deep_view()[i as int] == (docs[i as int].source, docs[i as int].text));
        }
        if same_text(chunks[i].0.as_str(), source) {
            let t = chunks[i].1.clone();
            r.push(t);
            proof {
                assert(r.deep_view() =~= before.push(t@));
            }
        }
        i = i + 1;
    }
    proof {
        assert(docs.take(i as int) =~= docs);
    }
    r
}

// ── Contexts ─────────────────────────────────────────────────────────────────

/// The document context of a turn.
#[derive(Debug)]
pub struct Context {
    /// The text for the model; empty if there is no document.
    pub text: String,
    /// The documents in it.
    pub sources: Vec<String>,
    /// Whether something was left out.
    pub truncated: bool,
}

/// What a [`Context`] stands for.
#[verifier::ext_equal]
pub struct ContextView {
    pub text: Seq<char>,
    pub sources: Seq<Seq<char>>,
    pub truncated: bool,
}

impl View for Context {
    type V = ContextView;

    open spec fn view(&self) -> ContextView {
        ContextView {
            text: self.text@,
            sources: self.sources.deep_view(),
            truncated: self.truncated,
        }
    }
}

/// What comes next when a context is built.
#[derive(Debug)]
pub enum ContextStep {
    /// The context is built.
    Done(Context),
    /// The library is too large; the best hits have to be retrieved.
    Retrieve(RetrievalQuery),
}

/// What a [`ContextStep`] stands for.
#[verifier::ext_equal]
pub enum StepView {
    Done(ContextView),
    Retrieve(RetrievalQuery),
}

impl View for ContextStep {
    type V = StepView;

    open spec fn view(&self) -> StepView {
        match self {
            ContextStep::Done(c) => StepView::Done(c@),
            ContextStep::Retrieve(q) => StepView::Retrieve(*q),
        }
    }
}

/// The context of one document that the message names: as many of its chunks as
/// fit.
pub open spec fn named_context(docs: Seq<DocView>, source: Seq<char>) -> ContextView {
    let texts = texts_from(docs, source);
    let n = fitting(texts, CONTEXT_CHAR_BUDGET as int);
    ContextView {
        text: heading(source) + stacked(texts.take(n as int)),
        sources: seq![source],
        truncated: n < texts.len(),
    }
}

/// The first step of building a context.
pub open spec fn first_step(docs: Seq<DocView>, c: ConfigView, message: Seq<char>) -> StepView {
    let sources = sources_in(docs);
    let named = best_called(lowered(message), all_lowered(sources));
    if docs.len() == 0 {
        StepView::Done(
            ContextView { text: Seq::empty(), sources: Seq::empty(), truncated: false },
        )
    } else if named >= 0 {
        StepView::Done(named_context(docs, sources[named]))
    } else if total_chars(all_texts(docs)) <= CONTEXT_CHAR_BUDGET {
        StepView::Done(
            ContextView {
                text: whole_documents(docs, sources),
                sources: sources,
                truncated: false,
            },
        )
    } else {
        StepView::Retrieve(
            RetrievalQuery { mode: configured_mode(c), top_k: configured_top_k(c) },
        )
    }
}

fn context_of_named(
    chunks: &Vec<(String, String)>,
    source: String,
    Ghost(docs): Ghost<Seq<DocView>>,
) -> (r: Context)
    requires
        chunks.deep_view() == pairs(docs),
    ensures
        r@ == named_context(docs, source@),
{
    let texts = list_texts_from(chunks, source.as_str(), Ghost(docs));
    let n = count_fitting(&texts, CONTEXT_CHAR_BUDGET);
    let mut out = String::new();
    push_heading(&mut out, source.as_str());
    push_stacked(&mut out, &texts, n);
    let mut sources: Vec<String> = Vec::new();
    let ghost s = source@;
    sources.push(source);
    proof {
        assert(texts.deep_view().len() == texts@.len());
        assert(sources.deep_view() =~= seq![s]);
        assert(out@ =~= heading(s) + stacked(texts.deep_view().take(n as int)));
    }
    Context { text: out, sources: sources, truncated: n < texts.len() }
}

fn context_of_all(
    chunks: &Vec<(String, String)>,
    sources: Vec<String>,
    Ghost(docs): Ghost<Seq<DocView>>,
) -> (r: Context)
    requires
        chunks.deep_view() == pairs(docs),
    ensures
        r@ == (ContextView {
            text: whole_documents(docs, sources.deep_view()),
            sources: sources.deep_view(),
            truncated: false,
        }),
{
    let ghost all = sources.deep_view();
    let mut out = String::new();
    let mut i: usize = 0;
    proof {
        assert(all.take(0) =~= Seq::<Seq<char>>::empty());
    }
    while i < sources.len()
        invariant
            i <= sources@.len(),
            all == sources.deep_view(),
            all.len() == sources@.len(),
            chunks.deep_view() == pairs(docs),
            out@ == whole_documents(docs, all.take(i as int)),
        decreases sources@.len() - i,
    {
        let texts = list_texts_from(chunks, sources[i].as_str(), Ghost(docs));
        proof {
            let next = all.take(i + 1);
            assert(next.drop_last() =~= all.take(i as int));
            assert(next.last() == sources@[i as int]@);
            assert(texts.deep_view().take(texts@.len() as int) =~= texts.deep_view());
        }
        push_heading(&mut out, sources[i].as_str());
        push_stacked(&mut out, &texts, texts.len());
        i = i + 1;
    }
    proof {
        assert(all.take(i as int) =~= all);
    }
    Context { text: out, sources: sources, truncated: false }
}

/// Builds the context of a turn, or says what to retrieve for it.
pub fn build_context(system: &RagSystem, cfg: &Config, message: &str) -> (r: ContextStep)
    ensures
        r@ == first_step(system@.docs, cfg@, message@),
{
    let ghost docs = system@.docs;
    let chunks = system.index().all_chunks();
    proof {
        assert(chunks.deep_view().len() == chunks@.len());
    }
    if chunks.len() == 0 {
        let c = Context { text: String::new(), sources: Vec::new(), truncated: false };
        proof {
            assert(c@.sources =~= Seq::<Seq<char>>::empty());
        }
        return ContextStep::Done(c);
    }
    let sources = list_sources_in(&chunks, Ghost(docs));
    if let Some(target) = matched_document(message, &sources) {
        return ContextStep::Done(context_of_named(&chunks, target, Ghost(docs)));
    }
    let mut texts: Vec<String> = Vec::new();
    let mut i: usize = 0;
    while i < chunks.len()
        invariant
            i <= chunks@.len(),
            chunks@.len() == docs.len(),
            chunks.deep_view() == pairs(docs),
            texts@.len() == i,
            forall|k: int| 0 <= k < i ==> (#[trigger] texts@[k])@ == docs[k].text,
        decreases chunks@.len() - i,
    {
        proof {
            assert(chunks.deep_view()[i as int] == (docs[i as int].source, docs[i as int].text));
        }
        texts.push(chunks[i].1.clone());
        i = i + 1;
    }
    proof {
        assert(texts.deep_view() =~= all_texts(docs));
    }
    if fits_budget(&texts, CONTEXT_CHAR_BUDGET) {
        return ContextStep::Done(context_of_all(&chunks, sources, Ghost(docs)));
    }
    ContextStep::Retrieve(
        RetrievalQuery {
            mode: RetrievalMode::parse(cfg.retrieval_mode.as_str()),
            top_k: top_k_of(cfg),
        },
    )
}

// ── Contexts of hits ─────────────────────────────────────────────────────────

/// What the model is told when there is not enough evidence.
pub const NO_EVIDENCE: &'static str =
    "\n(No sufficiently relevant passages were found in the uploaded documents for this question. Tell the user you could not find enough evidence in their files to answer confidently, rather than guessing.)\n";

/// The word for the layer that surfaced a hit.
pub open spec fn layer_name(s: HitSource) -> Seq<char> {
    match s {
        HitSource::Keyword => "keyword"@,
        HitSource::Vector => "semantic"@,
        HitSource::Hybrid => "hybrid"@,
    }
}

fn layer_word(s: HitSource) -> (r: &'static str)
    ensures
        r@ == layer_name(s),
{
    match s {
        HitSource::Keyword => "keyword",
        HitSource::Vector => "semantic",
        HitSource::Hybrid => "hybrid",
    }
}

/// What stands before the hits.
pub open spec fn hits_heading(mode: RetrievalMode) -> Seq<char> {
    "\n(The most relevant excerpts from your documents, retrieved by "@ + mode_name(mode)
        + " search. Each is labelled with its source so you can cite it.)\n"@
}

/// A hit with its label, `score` being its score in words.
pub open spec fn cited(h: HitView, score: Seq<char>) -> Seq<char> {
    "\n----- from "@ + h.source + " (chunk "@ + decimal(h.chunk_id as nat) + ", "@ + layer_name(
        h.retrieval,
    ) + " match, score "@ + score + ") -----\n"@ + h.text + "\n"@
}

/// Hits with their labels, one after the other.
pub open spec fn all_cited(hits: Seq<HitView>, scores: Seq<Seq<char>>) -> Seq<char>
    decreases hits.len(),
{
    if hits.len() == 0 {
        Seq::empty()
    } else {
        all_cited(hits.drop_last(), scores) + cited(hits.last(), scores[hits.len() - 1])
    }
}

/// The texts of hits.
pub open spec fn hit_texts(hits: Seq<HitView>) -> Seq<Seq<char>> {
    hits.map_values(|h: HitView| h.text)
}

/// The sources of hits.
pub open spec fn hit_sources(hits: Seq<HitView>) -> Seq<Seq<char>> {
    hits.map_values(|h: HitView| h.source)
}

/// The context that the outcome of a retrieval gives: the hits that fit, or the
/// note that there is not enough evidence.
pub open spec fn hits_context(
    hits: Seq<HitView>,
    mode: RetrievalMode,
    confident: bool,
    scores: Seq<Seq<char>>,
) -> ContextView {
    if !confident || hits.len() == 0 {
        ContextView { text: NO_EVIDENCE@, sources: Seq::empty(), truncated: true }
    } else {
        let n = fitting(hit_texts(hits), CONTEXT_CHAR_BUDGET as int) as int;
        ContextView {
            text: hits_heading(mode) + all_cited(hits.take(n), scores),
            sources: text_set(hit_sources(hits.take(n))),
            truncated: true,
        }
    }
}

/// The context that the outcome of a retrieval gives. The scores of the hits come
/// in words.
pub fn retrieved_context(result: &RetrievalResult, scores: &[String]) -> (r: Context)
    requires
        scores@.len() == result.hits@.len(),
    ensures
        r@ == hits_context(
            result.hits.deep_view(),
            result.mode,
            result.confident,
            scores.deep_view(),
        ),
{
    let ghost hits = result.hits.deep_view();
    let ghost labels = scores.deep_view();
    proof {
        assert(hits.len() == result.hits@.len());
    }
    if !result.confident || result.hits.len() == 0 {
        let c = Context { text: NO_EVIDENCE.to_owned(), sources: Vec::new(), truncated: true };
        proof {
            assert(c@.sources =~= Seq::<Seq<char>>::empty());
        }
        return c;
    }
    let mut texts: Vec<String> = Vec::new();
    let mut k: usize = 0;
    while k < result.hits.len()
        invariant
            k <= result.hits@.len(),
            texts@.len() == k,
            forall|m: int| 0 <= m < k ==> (#[trigger] texts@[m])@ == result.hits@[m].text@,
        decreases result.hits@.len() - k,
    {
        texts.push(result.hits[k].text.clone());
        k = k + 1;
    }
    proof {
        assert(texts.deep_view() =~= hit_texts(hits));
    }
    let n = count_fitting(&texts, CONTEXT_CHAR_BUDGET);
    let mut out = String::new();
    out.push_str("\n(The most relevant excerpts from your documents, retrieved by ");
    out.push_str(result.mode.as_str());
    out.push_str(" search. Each is labelled with its source so you can cite it.)\n");
    proof {
        assert(out@ =~= hits_heading(result.mode));
    }
    let mut used: Vec<String> = Vec::new();
    let mut i: usize = 0;
    proof {
        assert(hits.take(0) =~= Seq::<HitView>::empty());
        assert(out@ + Seq::<char>::empty() =~= out@);
    }
    while i < n
        invariant
            i <= n <= result.hits@.len(),
            hits == result.hits.deep_view(),
            hits.len() == result.hits@.len(),
            labels == scores.deep_view(),
            scores@.len() == hits.len(),
            used@.len() == i,
            forall|m: int| 0 <= m < i ==> (#[trigger] used@[m])@ == hits[m].source,
            out@ == hits_heading(result.mode) + all_cited(hits.take(i as int), labels),
        decreases n - i,
    {
        let h = &result.hits[i];
        let ghost before = out@;
        proof {
            let next = hits.take(i + 1);
            assert(next.drop_last() =~= hits.take(i as int));
            assert(next.last() == h@);
            assert(labels[i as int] == scores@[i as int]@);
        }
        out.push_str("\n----- from ");
        out.push_str(h.source.as_str());
        out.push_str(" (chunk ");
        push_decimal(&mut out, h.chunk_id as u64);
        out.push_str(", ");
        out.push_str(layer_word(h.retrieval));
        out.push_str(" match, score ");
        out.push_str(scores[i].as_str());
        out.push_str(") -----\n");
        out.push_str(h.text.as_str());
        out.push_str("\n");
        proof {
            assert(out@ =~= before + cited(h@, labels[i as int]));
            assert(out@ =~= hits_heading(result.mode) + all_cited(hits.take(i + 1), labels));
        }
        used.push(h.source.clone());
        i = i + 1;
    }
    proof {
        assert(used.deep_view() =~= hit_sources(hits.take(n as int)));
    }
    Context { text: out, sources: set_of_texts(&used), truncated: true }
}

// ── Laws ─────────────────────────────────────────────────────────────────────

/// A context never holds more document text than the budget, and leaves out only
/// what does not fit: either all texts fit, or the next one would exceed it.
pub proof fn contexts_keep_the_budget(texts: Seq<Seq<char>>, budget: int)
    requires
        budget >= 0,
    ensures
        fitting(texts, budget) <= texts.len(),
        total_chars(texts.take(fitting(texts, budget) as int)) <= budget,
        fitting(texts, budget) < texts.len() ==> total_chars(
            texts.take(fitting(texts, budget) as int + 1),
        ) > budget,
    decreases texts.len(),
{
    let n = fitting(texts, budget) as int;
    if texts.len() > 0 && texts[0].len() <= budget {
        let d = texts.drop_first();
        let left = budget - texts[0].len();
        contexts_keep_the_budget(d, left);
        lemma_total_front(texts.take(n));
        assert(texts.take(n).drop_first() =~= d.take(n - 1));
        if n < texts.len() {
            lemma_total_front(texts.take(n + 1));
            assert(texts.take(n + 1).drop_first() =~= d.take(n));
        }
    } else {
        assert(texts.take(0) =~= Seq::<Seq<char>>::empty());
        if texts.len() > 0 {
            lemma_total_front(texts.take(1));
            assert(texts.take(1)[0] == texts[0]);
        }
    }
}

proof fn lemma_total_front(texts: Seq<Seq<char>>)
    requires
        texts.len() > 0,
    ensures
        total_chars(texts) == texts[0].len() + total_chars(texts.drop_first()),
    decreases texts.len(),
{
    if texts.len() > 1 {
        let d = texts.drop_last();
        lemma_total_front(d);
        assert(d.drop_first() =~= texts.drop_first().drop_last());
        assert(texts.drop_first().last() == texts.last());
    } else {
        assert(texts.drop_last() =~= Seq::<Seq<char>>::empty());
        assert(texts.drop_first() =~= Seq::<Seq<char>>::empty());
    }
}

proof fn lemma_contains_part(a: Seq<char>, s: Seq<char>, b: Seq<char>, t: Seq<char>)
    requires
        contains(s, t),
    ensures
        contains(a + s + b, t),
{
    let i = choose|i: int| at(s, t, i);
    let all = a + s + b;
    assert(all.subrange(a.len() + i, a.len() + i + t.len()) =~= s.subrange(i, i + t.len()));
    assert(at(all, t, a.len() + i));
}

proof fn lemma_stacked_contains(texts: Seq<Seq<char>>, k: int)
    requires
        0 <= k < texts.len(),
    ensures
        contains(stacked(texts), texts[k]),
    decreases texts.len(),
{
    let d = texts.drop_last();
    let e: Seq<char> = Seq::empty();
    if k < d.len() {
        lemma_stacked_contains(d, k);
        lemma_contains_part(e, stacked(d), texts.last() + "\n"@, texts[k]);
        assert(e + stacked(d) + (texts.last() + "\n"@) =~= stacked(texts));
    } else {
        let t = texts[k];
        assert(t.subrange(0, t.len() as int) =~= t);
        assert(at(t, t, 0));
        lemma_contains_part(stacked(d), t, "\n"@, t);
    }
}

proof fn lemma_texts_from(docs: Seq<DocView>, k: int)
    requires
        0 <= k < docs.len(),
    ensures
        texts_from(docs, docs[k].source).contains(docs[k].text),
        sources_in(docs).contains(docs[k].source),
    decreases docs.len(),
{
    let d = docs.drop_last();
    let before = texts_from(d, docs[k].source);
    let names = sources_in(d);
    if k < d.len() {
        lemma_texts_from(d, k);
        let m = choose|m: int| 0 <= m < before.len() && before[m] == docs[k].text;
        assert(texts_from(docs, docs[k].source)[m] == docs[k].text);
        let j = choose|j: int| 0 <= j < names.len() && names[j] == docs[k].source;
        assert(sources_in(docs)[j] == docs[k].source);
    } else {
        assert(texts_from(docs, docs[k].source)[before.len() as int] == docs[k].text);
        if !names.contains(docs[k].source) {
            assert(sources_in(docs)[names.len() as int] == docs[k].source);
        }
    }
}

proof fn lemma_whole_contains(docs: Seq<DocView>, sources: Seq<Seq<char>>, j: int, t: Seq<char>)
    requires
        0 <= j < sources.len(),
        texts_from(docs, sources[j]).contains(t),
    ensures
        contains(whole_documents(docs, sources), t),
    decreases sources.len(),
{
    let d = sources.drop_last();
    let e: Seq<char> = Seq::empty();
    let head = whole_documents(docs, d);
    let tail = stacked(texts_from(docs, sources.last()));
    if j < d.len() {
        lemma_whole_contains(docs, d, j, t);
        lemma_contains_part(e, head, heading(sources.last()) + tail, t);
        assert(e + head + (heading(sources.last()) + tail) =~= whole_documents(docs, sources));
    } else {
        let texts = texts_from(docs, sources[j]);
        let k = choose|k: int| 0 <= k < texts.len() && texts[k] == t;
        lemma_stacked_contains(texts, k);
        lemma_contains_part(head + heading(sources.last()), tail, e, t);
        assert(head + heading(sources.last()) + tail + e =~= whole_documents(docs, sources));
    }
}

/// A library that fits the budget is given whole: unless the message names one
/// document, every chunk stands in the context, every source is listed, and
/// nothing is cut. A document is there from the moment it is indexed.
pub proof fn small_libraries_are_given_whole(
    docs: Seq<DocView>,
    c: ConfigView,
    message: Seq<char>,
    k: int,
)
    requires
        0 <= k < docs.len(),
        total_chars(all_texts(docs)) <= CONTEXT_CHAR_BUDGET,
        best_called(lowered(message), all_lowered(sources_in(docs))) < 0,
    ensures
        first_step(docs, c, message) matches StepView::Done(x) && contains(x.text, docs[k].text)
            && x.sources.contains(docs[k].source) && !x.truncated,
{
    lemma_texts_from(docs, k);
    let names = sources_in(docs);
    let j = choose|j: int| 0 <= j < names.len() && names[j] == docs[k].source;
    lemma_whole_contains(docs, names, j, docs[k].text);
}

/// The document that a message names is called by a key of at least three bytes
/// that stands in the message, none is called by a longer one and none before it
/// by one as long, and none is named only where none is called.
pub proof fn the_longest_call_wins(msg: Seq<char>, names: Seq<Seq<char>>)
    ensures
        -1 <= best_called(msg, names) < names.len(),
        best_called(msg, names) >= 0 ==> call_len(msg, names[best_called(msg, names)]) >= 3,
        best_called(msg, names) >= 0 ==> forall|i: int|
            0 <= i < names.len() ==> call_len(msg, #[trigger] names[i]) <= call_len(
                msg,
                names[best_called(msg, names)],
            ),
        best_called(msg, names) >= 0 ==> forall|i: int|
            0 <= i < best_called(msg, names) ==> call_len(msg, #[trigger] names[i]) < call_len(
                msg,
                names[best_called(msg, names)],
            ),
        best_called(msg, names) < 0 ==> forall|i: int|
            0 <= i < names.len() ==> call_len(msg, #[trigger] names[i]) == 0,
    decreases names.len(),
{
    if names.len() > 0 {
        let d = names.drop_last();
        the_longest_call_wins(msg, d);
        assert forall|i: int| 0 <= i < d.len() implies names[i] == d[i] by {}
    }
}

proof fn lemma_cited_contains(hits: Seq<HitView>, scores: Seq<Seq<char>>, k: int)
    requires
        0 <= k < hits.len(),
    ensures
        contains(all_cited(hits, scores), hits[k].text),
    decreases hits.len(),
{
    let d = hits.drop_last();
    let e: Seq<char> = Seq::empty();
    let h = hits.last();
    let last = cited(h, scores[hits.len() - 1]);
    if k < d.len() {
        lemma_cited_contains(d, scores, k);
        lemma_contains_part(e, all_cited(d, scores), last, hits[k].text);
        assert(e + all_cited(d, scores) + last =~= all_cited(hits, scores));
    } else {
        let label = "\n----- from "@ + h.source + " (chunk "@ + decimal(h.chunk_id as nat) + ", "@
            + layer_name(h.retrieval) + " match, score "@ + scores[hits.len() - 1] + ") -----\n"@;
        assert(h.text.subrange(0, h.text.len() as int) =~= h.text);
        assert(at(h.text, h.text, 0));
        lemma_contains_part(all_cited(d, scores) + label, h.text, "\n"@, h.text);
        assert(all_cited(d, scores) + label + h.text + "\n"@ =~= all_cited(hits, scores));
    }
}

/// What is found is given to the model: where there is evidence, every hit that
/// fits the budget stands in the context and its source is listed.
pub proof fn evidence_is_cited(
    hits: Seq<HitView>,
    mode: RetrievalMode,
    scores: Seq<Seq<char>>,
    k: int,
)
    requires
        0 <= k < fitting(hit_texts(hits), CONTEXT_CHAR_BUDGET as int),
    ensures
        contains(hits_context(hits, mode, true, scores).text, hits[k].text),
        hits_context(hits, mode, true, scores).sources.contains(hits[k].source),
{
    contexts_keep_the_budget(hit_texts(hits), CONTEXT_CHAR_BUDGET as int);
    let n = fitting(hit_texts(hits), CONTEXT_CHAR_BUDGET as int) as int;
    let used = hits.take(n);
    let e: Seq<char> = Seq::empty();
    lemma_cited_contains(used, scores, k);
    lemma_contains_part(hits_heading(mode), all_cited(used, scores), e, hits[k].text);
    assert(hits_heading(mode) + all_cited(used, scores) + e =~= hits_heading(mode) + all_cited(
        used,
        scores,
    ));
    crate::order::text_set_is_a_set(hit_sources(used));
    assert(hit_sources(used)[k] == hits[k].source);
}

/// A context of hits lists only sources of hits that are in it.
pub proof fn cited_sources_are_in_the_context(
    hits: Seq<HitView>,
    mode: RetrievalMode,
    confident: bool,
    scores: Seq<Seq<char>>,
    s: Seq<char>,
)
    requires
        hits_context(hits, mode, confident, scores).sources.contains(s),
    ensures
        confident,
        exists|i: int|
            0 <= i < fitting(hit_texts(hits), CONTEXT_CHAR_BUDGET as int) && (#[trigger] hits[i]).source
                == s,
{
    let n = fitting(hit_texts(hits), CONTEXT_CHAR_BUDGET as int) as int;
    let sources = hit_sources(hits.take(n));
    crate::order::text_set_is_a_set(sources);
    contexts_keep_the_budget(hit_texts(hits), CONTEXT_CHAR_BUDGET as int);
    if confident && hits.len() > 0 {
        assert(sources.contains(s));
        let i = choose|i: int| 0 <= i < sources.len() && sources[i] == s;
        assert(hits[i].source == s);
    }
}

} // verus!
