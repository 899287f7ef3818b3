//! Deterministic chunking along the boundaries of a text.
//!
//! A text is broken into segments: its paragraphs, the sentences of a paragraph
//! that is too long, and pieces of a sentence that is too long. Segments are then
//! packed greedily into chunks, and the last segments of a chunk are carried into
//! the next one so that context spans the boundary.
use vstd::prelude::*;
use vstd::string::StrSliceExecFns;

use crate::rag::pack::{pack, packed};
use crate::rag::types::{id_of, now_unix, stable_id, ChunkView, RagConfig, RagConfigView, StoredChunk};
use crate::text::{
    all_white, chars_of, is_white, join, joined, joined_range, lines, lines_of, lower, lowered,
    string_of, trim, trim_bounds, trimmed, white, words, words_of,
};

verus! {

/// Chunks shorter than this are dropped as noise, unless the document has no
/// longer one, in which case the document is kept whole.
pub const MIN_CHUNK_CHARS: usize = 24;

/// Number of characters of a text.
pub fn clen(s: &str) -> (n: usize)
    ensures
        n == s@.len(),
{
    s.unicode_len()
}

// ── Normal form ──────────────────────────────────────────────────────────────

/// A text in lower case, its words separated by single spaces.
pub open spec fn normal(s: Seq<char>) -> Seq<char> {
    lowered(join(words(s), " "@))
}

/// A text in lower case, its words separated by single spaces.
pub fn normalize(text: &str) -> (r: String)
    ensures
        r@ == normal(text@),
{
    let ws = words_of(text);
    let spaced = joined(&ws, " ");
    lower(spaced.as_str())
}

// ── Paragraphs ───────────────────────────────────────────────────────────────

/// A line of whitespace.
pub open spec fn blank(line: Seq<char>) -> bool {
    trim(line).len() == 0
}

/// How many lines at the front are not blank.
pub open spec fn dark_lines(ls: Seq<Seq<char>>) -> nat
    decreases ls.len(),
{
    if ls.len() > 0 && !blank(ls.first()) {
        1 + dark_lines(ls.drop_first())
    } else {
        0
    }
}

/// A stretch of lines is no longer than the lines it is taken from.
pub proof fn lemma_dark_lines(ls: Seq<Seq<char>>)
    ensures
        dark_lines(ls) <= ls.len(),
    decreases ls.len(),
{
    if ls.len() > 0 && !blank(ls.first()) {
        lemma_dark_lines(ls.drop_first());
    }
}

/// The paragraphs that lines make up: the maximal stretches without a blank
/// line, trimmed.
pub open spec fn paragraphs_of(ls: Seq<Seq<char>>) -> Seq<Seq<char>>
    decreases ls.len(),
{
    if ls.len() == 0 {
        Seq::empty()
    } else if blank(ls.first()) {
        paragraphs_of(ls.drop_first())
    } else {
        proof {
            lemma_dark_lines(ls);
        }
        let n = dark_lines(ls) as int;
        seq![trim(join(ls.take(n), "\n"@))] + paragraphs_of(ls.skip(n))
    }
}

/// The paragraphs of a text.
pub open spec fn paragraphs(s: Seq<char>) -> Seq<Seq<char>> {
    paragraphs_of(lines(s))
}

fn is_blank(line: &str) -> (r: bool)
    ensures
        r == blank(line@),
{
    let cs = chars_of(line);
    let (i, j) = trim_bounds(&cs);
    i == j
}

/// Splits a text into paragraphs at blank lines, trimming each.
pub fn split_paragraphs(text: &str) -> (r: Vec<String>)
    ensures
        r.deep_view() == paragraphs(text@),
{
    let cs = chars_of(text);
    let ls = lines_of(&cs);
    let ghost all = ls.deep_view();
    let mut r: Vec<String> = Vec::new();
    let mut i: usize = 0;
    proof {
        assert(all.skip(0) =~= all);
        assert(r.deep_view() =~= Seq::<Seq<char>>::empty());
        assert(r.deep_view() + paragraphs_of(all) =~= paragraphs_of(all));
    }
    while i < ls.len()
        invariant
            i <= ls@.len(),
            all == ls.deep_view(),
            all.len() == ls@.len(),
            paragraphs_of(all) == r.deep_view() + paragraphs_of(all.skip(i as int)),
        decreases ls@.len() - i,
    {
        let ghost rest = all.skip(i as int);
        proof {
            assert(rest.first() == ls@[i as int]@);
        }
        if is_blank(ls[i].as_str()) {
            proof {
                assert(rest.drop_first() =~= all.skip(i + 1));
            }
            i = i + 1;
        } else {
            let mut j: usize = i;
            while j < ls.len() && !is_blank(ls[j].as_str())
                invariant
                    i <= j <= ls@.len(),
                    all == ls.deep_view(),
                    all.len() == ls@.len(),
                    dark_lines(all.skip(i as int)) == (j - i) + dark_lines(all.skip(j as int)),
                decreases ls@.len() - j,
            {
                proof {
                    assert(all.skip(j as int).first() == ls@[j as int]@);
                    assert(all.skip(j as int).drop_first() =~= all.skip(j + 1));
                }
                j = j + 1;
            }
            let ghost n = (j - i) as int;
            proof {
                if j < ls@.len() {
                    assert(all.skip(j as int).first() == ls@[j as int]@);
                }
                assert(dark_lines(all.skip(j as int)) == 0);
                assert(rest.take(n) =~= all.subrange(i as int, j as int));
                assert(rest.skip(n) =~= all.skip(j as int));
            }
            let run = joined_range(&ls, i, j, "\n");
            let para = trimmed(run.as_str());
            let ghost before = r.deep_view();
            r.push(para);
            proof {
                assert(r.deep_view() =~= before.push(para@));
                assert(before + (seq![para@] + paragraphs_of(all.skip(j as int)))
                    =~= before.push(para@) + paragraphs_of(all.skip(j as int)));
            }
            i = j;
        }
    }
    proof {
        assert(all.skip(i as int) =~= Seq::<Seq<char>>::empty());
        assert(paragraphs_of(all) =~= r.deep_view());
    }
    r
}

// ── Sentences ────────────────────────────────────────────────────────────────

/// A character that can end a sentence.
pub open spec fn stops(c: char) -> bool {
    c == '.' || c == '!' || c == '?'
}

/// How many characters the first sentence takes: up to the first stop that
/// whitespace follows, or all of them.
pub open spec fn sentence_len(s: Seq<char>) -> nat
    decreases s.len(),
{
    if s.len() == 0 {
        0
    } else if s.len() > 1 && stops(s[0]) && white(s[1]) {
        1
    } else {
        1 + sentence_len(s.drop_first())
    }
}

/// A sentence takes at least one character, and ends with a stop before whitespace
/// unless it takes all.
pub proof fn lemma_sentence_len(s: Seq<char>)
    ensures
        sentence_len(s) <= s.len(),
        s.len() > 0 ==> sentence_len(s) > 0,
        0 < sentence_len(s) < s.len() ==> stops(s[sentence_len(s) - 1]) && white(
            s[sentence_len(s) as int],
        ),
    decreases s.len(),
{
    if s.len() > 0 && !(s.len() > 1 && stops(s[0]) && white(s[1])) {
        lemma_sentence_len(s.drop_first());
    }
}

/// A text trimmed, unless nothing is left of it.
pub open spec fn piece(s: Seq<char>) -> Seq<Seq<char>> {
    if trim(s).len() > 0 {
        seq![trim(s)]
    } else {
        Seq::empty()
    }
}

/// The sentences of a paragraph, trimmed.
pub open spec fn sentences(s: Seq<char>) -> Seq<Seq<char>>
    decreases s.len(),
{
    if s.len() == 0 {
        Seq::empty()
    } else {
        proof {
            lemma_sentence_len(s);
        }
        let n = sentence_len(s) as int;
        piece(s.take(n)) + sentences(s.skip(n))
    }
}

/// Appends characters `from..to` of `s`, trimmed, unless nothing is left of them.
fn push_piece(r: &mut Vec<String>, s: &[char], from: usize, to: usize)
    requires
        from <= to <= s@.len(),
    ensures
        final(r).deep_view() == old(r).deep_view() + piece(s@.subrange(from as int, to as int)),
{
    let whole = string_of(s, from, to);
    let t = trimmed(whole.as_str());
    let ghost before = r.deep_view();
    if !t.as_str().is_empty() {
        r.push(t);
        proof {
            assert(r.deep_view() =~= before + seq![t@]);
        }
    } else {
        proof {
            assert(r.deep_view() =~= before + Seq::<Seq<char>>::empty());
        }
    }
}

/// Splits a paragraph into sentences: after a full stop, an exclamation mark or a
/// question mark that whitespace follows.
pub fn split_sentences(para: &str) -> (r: Vec<String>)
    ensures
        r.deep_view() == sentences(para@),
{
    let s = chars_of(para);
    let mut r: Vec<String> = Vec::new();
    let mut i: usize = 0;
    proof {
        assert(s@.skip(0) =~= s@);
        assert(r.deep_view() =~= Seq::<Seq<char>>::empty());
        assert(r.deep_view() + sentences(s@) =~= sentences(s@));
    }
    while i < s.len()
        invariant
            i <= s@.len(),
            sentences(s@) == r.deep_view() + sentences(s@.skip(i as int)),
        decreases s@.len() - i,
    {
        let ghost rest = s@.skip(i as int);
        let mut j: usize = i;
        let mut done: bool = false;
        while j < s.len() && !done
            invariant
                i <= j <= s@.len(),
                i < s@.len(),
                done ==> sentence_len(s@.skip(i as int)) == j - i && i < j,
                !done ==> sentence_len(s@.skip(i as int)) == (j - i) + sentence_len(
                    s@.skip(j as int),
                ),
            decreases s@.len() - j,
        {
            let c = s[j];
            proof {
                let t = s@.skip(j as int);
                assert(t[0] == c);
                if j + 1 < s@.len() {
                    assert(t[1] == s@[j + 1]);
                }
                assert(t.drop_first() =~= s@.skip(j + 1));
            }
            done = (c == '.' || c == '!' || c == '?') && s.len() - j > 1 && is_white(s[j + 1]);
            j = j + 1;
        }
        proof {
            if !done {
                assert(s@.skip(j as int) =~= Seq::<char>::empty());
            }
            let n = (j - i) as int;
            lemma_sentence_len(rest);
            assert(rest.take(n) =~= s@.subrange(i as int, j as int));
            assert(rest.skip(n) =~= s@.skip(j as int));
        }
        let ghost before = r.deep_view();
        push_piece(&mut r, &s, i, j);
        proof {
            let p = piece(s@.subrange(i as int, j as int));
            assert(before + (p + sentences(s@.skip(j as int))) =~= before + p + sentences(
                s@.skip(j as int),
            ));
        }
        i = j;
    }
    proof {
        assert(s@.skip(i as int) =~= Seq::<char>::empty());
        assert(sentences(s@) =~= r.deep_view());
    }
    r
}

// ── Pieces ───────────────────────────────────────────────────────────────────

/// The end of the last whitespace among the first `n` characters, or 0.
pub open spec fn last_white_end(s: Seq<char>, n: int) -> int
    decreases n,
{
    if n <= 0 {
        0
    } else if white(s[n - 1]) {
        n
    } else {
        last_white_end(s, n - 1)
    }
}

/// How many characters the first piece takes: all of them if they fit; else up
/// to the last whitespace in reach, so that only a word that does not fit a piece
/// is cut.
pub open spec fn cut(s: Seq<char>, max: int) -> int {
    if s.len() <= max {
        s.len() as int
    } else if last_white_end(s, max) > 0 {
        last_white_end(s, max)
    } else {
        max
    }
}

/// Nothing behind the last whitespace is whitespace.
pub proof fn lemma_last_white_end(s: Seq<char>, n: int)
    requires
        0 <= n <= s.len(),
    ensures
        0 <= last_white_end(s, n) <= n,
        last_white_end(s, n) > 0 ==> white(s[last_white_end(s, n) - 1]),
        forall|k: int| last_white_end(s, n) <= k < n ==> !white(#[trigger] s[k]),
    decreases n,
{
    if n > 0 && !white(s[n - 1]) {
        lemma_last_white_end(s, n - 1);
    }
}

/// A piece takes at least one character and at most `max`.
pub proof fn lemma_cut(s: Seq<char>, max: int)
    requires
        max > 0,
        s.len() > 0,
    ensures
        0 < cut(s, max) <= s.len(),
        cut(s, max) <= max,
{
    if s.len() > max {
        lemma_last_white_end(s, max);
    }
}

/// The pieces of a text of at most `max` characters each, trimmed.
pub open spec fn pieces(s: Seq<char>, max: int) -> Seq<Seq<char>>
    decreases s.len(),
{
    if s.len() == 0 || max <= 0 {
        Seq::empty()
    } else {
        proof {
            lemma_cut(s, max);
        }
        piece(s.take(cut(s, max))) + pieces(s.skip(cut(s, max)), max)
    }
}

/// A text that fits, as it is; one that does not, in pieces.
pub open spec fn hard_pieces(s: Seq<char>, max: int) -> Seq<Seq<char>> {
    if s.len() <= max {
        seq![s]
    } else {
        pieces(s, max)
    }
}

/// Splits a text into pieces of at most `max` characters, at whitespace, and
/// inside a word only where the word is longer than `max`.
pub fn hard_split(s: &str, max: usize) -> (r: Vec<String>)
    requires
        max > 0 || s@.len() == 0,
    ensures
        r.deep_view() == hard_pieces(s@, max as int),
{
    let cs = chars_of(s);
    let mut r: Vec<String> = Vec::new();
    if cs.len() <= max {
        let whole = string_of(&cs, 0, cs.len());
        r.push(whole);
        proof {
            assert(whole@ =~= s@);
            assert(r.deep_view() =~= seq![s@]);
        }
        return r;
    }
    let mut start: usize = 0;
    proof {
        assert(cs@.skip(0) =~= cs@);
        assert(r.deep_view() =~= Seq::<Seq<char>>::empty());
        assert(r.deep_view() + pieces(cs@, max as int) =~= pieces(cs@, max as int));
    }
    while start < cs.len()
        invariant
            start <= cs@.len(),
            max > 0,
            pieces(cs@, max as int) == r.deep_view() + pieces(cs@.skip(start as int), max as int),
        decreases cs@.len() - start,
    {
        let ghost rest = cs@.skip(start as int);
        let mut end: usize = cs.len();
        if cs.len() - start > max {
            end = start + max;
            let mut b: usize = end;
            while b > start && !is_white(cs[b - 1])
                invariant
                    start <= b <= end,
                    end == start + max,
                    end <= cs@.len(),
                    rest == cs@.skip(start as int),
                    last_white_end(rest, max as int) == last_white_end(rest, b - start),
                decreases b,
            {
                proof {
                    assert(rest[b - start - 1] == cs@[b - 1]);
                }
                b = b - 1;
            }
            proof {
                if b > start {
                    assert(rest[b - start - 1] == cs@[b - 1]);
                }
                assert(last_white_end(rest, max as int) == b - start);
            }
            if b > start {
                end = b;
            }
        }
        let ghost n = (end - start) as int;
        proof {
            lemma_cut(rest, max as int);
            assert(n == cut(rest, max as int));
            assert(rest.take(n) =~= cs@.subrange(start as int, end as int));
            assert(rest.skip(n) =~= cs@.skip(end as int));
        }
        let ghost before = r.deep_view();
        push_piece(&mut r, &cs, start, end);
        proof {
            let p = piece(cs@.subrange(start as int, end as int));
            let q = pieces(cs@.skip(end as int), max as int);
            assert(before + (p + q) =~= before + p + q);
        }
        start = end;
    }
    proof {
        assert(cs@.skip(start as int) =~= Seq::<char>::empty());
        assert(pieces(cs@, max as int) =~= r.deep_view());
    }
    r
}

// ── Segments ─────────────────────────────────────────────────────────────────

/// Sentences that fit as they are, the others in pieces.
pub open spec fn fit_sentences(ss: Seq<Seq<char>>, limit: int) -> Seq<Seq<char>>
    decreases ss.len(),
{
    if ss.len() == 0 {
        Seq::empty()
    } else {
        fit_sentences(ss.drop_last(), limit) + hard_pieces(ss.last(), limit)
    }
}

/// A paragraph that fits, as it is; else its sentences.
pub open spec fn fit_paragraph(para: Seq<char>, limit: int) -> Seq<Seq<char>> {
    if para.len() <= limit {
        seq![para]
    } else {
        fit_sentences(sentences(para), limit)
    }
}

/// The segments of paragraphs.
pub open spec fn fit_paragraphs(ps: Seq<Seq<char>>, limit: int) -> Seq<Seq<char>>
    decreases ps.len(),
{
    if ps.len() == 0 {
        Seq::empty()
    } else {
        fit_paragraphs(ps.drop_last(), limit) + fit_paragraph(ps.last(), limit)
    }
}

/// The segments of a text: paragraphs that fit, sentences of the others that fit,
/// and pieces of the rest.
pub open spec fn segments(s: Seq<char>, limit: int) -> Seq<Seq<char>> {
    fit_paragraphs(paragraphs(s), limit)
}

/// Appends all of `more`.
fn extend(r: &mut Vec<String>, more: Vec<String>)
    ensures
        final(r).deep_view() == old(r).deep_view() + more.deep_view(),
{
    let ghost before = r.deep_view();
    let ghost m = more.deep_view();
    let mut more = more;
    r.append(&mut more);
    proof {
        assert(r.deep_view() =~= before + m);
    }
}

fn fit(para: String, limit: usize) -> (r: Vec<String>)
    requires
        limit > 0,
    ensures
        r.deep_view() == fit_paragraph(para@, limit as int),
{
    let mut r: Vec<String> = Vec::new();
    if clen(para.as_str()) <= limit {
        let ghost p = para@;
        r.push(para);
        proof {
            assert(r.deep_view() =~= seq![p]);
        }
        return r;
    }
    let ss = split_sentences(para.as_str());
    let ghost all = ss.deep_view();
    let mut i: usize = 0;
    proof {
        assert(all.take(0) =~= Seq::<Seq<char>>::empty());
        assert(r.deep_view() =~= Seq::<Seq<char>>::empty());
    }
    while i < ss.len()
        invariant
            i <= ss@.len(),
            limit > 0,
            all == ss.deep_view(),
            all.len() == ss@.len(),
            r.deep_view() == fit_sentences(all.take(i as int), limit as int),
        decreases ss@.len() - i,
    {
        proof {
            let next = all.take(i + 1);
            assert(next.drop_last() =~= all.take(i as int));
            assert(next.last() == ss@[i as int]@);
        }
        let ps = hard_split(ss[i].as_str(), limit);
        extend(&mut r, ps);
        i = i + 1;
    }
    proof {
        assert(all.take(i as int) =~= all);
    }
    r
}

/// Breaks a text into segments of at most `limit` characters.
pub fn segment(text: &str, limit: usize) -> (r: Vec<String>)
    requires
        limit > 0 || all_white(text@),
    ensures
        r.deep_view() == segments(text@, limit as int),
{
    let paras = split_paragraphs(text);
    let ghost all = paras.deep_view();
    let mut r: Vec<String> = Vec::new();
    proof {
        assert(all.take(0) =~= Seq::<Seq<char>>::empty());
        assert(r.deep_view() =~= Seq::<Seq<char>>::empty());
        if all_white(text@) {
            lemma_white_has_no_paragraphs(text@);
        }
    }
    let mut i: usize = 0;
    while i < paras.len()
        invariant
            i <= paras@.len(),
            limit > 0 || paras@.len() == 0,
            all == paras.deep_view(),
            all.len() == paras@.len(),
            r.deep_view() == fit_paragraphs(all.take(i as int), limit as int),
        decreases paras@.len() - i,
    {
        proof {
            let next = all.take(i + 1);
            assert(next.drop_last() =~= all.take(i as int));
            assert(next.last() == paras@[i as int]@);
        }
        let ps = fit(paras[i].clone(), limit);
        extend(&mut r, ps);
        i = i + 1;
    }
    proof {
        assert(all.take(i as int) =~= all);
    }
    r
}

proof fn lemma_white_lines(s: Seq<char>)
    requires
        all_white(s),
    ensures
        forall|i: int| 0 <= i < lines(s).len() ==> all_white(#[trigger] lines(s)[i]),
    decreases s.len(),
{
    if s.len() > 0 {
        let n = crate::text::line_len(s) as int;
        if n < s.len() {
            lemma_white_lines(s.skip(n + 1));
            let rest = lines(s.skip(n + 1));
            assert forall|i: int| 0 <= i < lines(s).len() implies all_white(
                #[trigger] lines(s)[i],
            ) by {
                if i > 0 {
                    assert(lines(s)[i] == rest[i - 1]);
                }
            }
        }
    }
}

proof fn lemma_blank_lines(ls: Seq<Seq<char>>)
    requires
        forall|i: int| 0 <= i < ls.len() ==> blank(#[trigger] ls[i]),
    ensures
        paragraphs_of(ls).len() == 0,
    decreases ls.len(),
{
    if ls.len() > 0 {
        assert(blank(ls[0]));
        lemma_blank_lines(ls.drop_first());
    }
}

/// A text of whitespace has no paragraph.
pub proof fn lemma_white_has_no_paragraphs(s: Seq<char>)
    requires
        all_white(s),
    ensures
        paragraphs(s).len() == 0,
{
    lemma_white_lines(s);
    assert forall|i: int| 0 <= i < lines(s).len() implies blank(#[trigger] lines(s)[i]) by {
        crate::text::lemma_trim_empty(lines(s)[i]);
    }
    lemma_blank_lines(lines(s));
}

// ── Documents ────────────────────────────────────────────────────────────────

/// The texts trimmed, without those of which nothing is left.
pub open spec fn trimmed_texts(raw: Seq<Seq<char>>) -> Seq<Seq<char>>
    decreases raw.len(),
{
    if raw.len() == 0 {
        Seq::empty()
    } else {
        trimmed_texts(raw.drop_last()) + piece(raw.last())
    }
}

/// The texts of at least [`MIN_CHUNK_CHARS`] characters.
pub open spec fn long_texts(texts: Seq<Seq<char>>) -> Seq<Seq<char>> {
    texts.filter(|t: Seq<char>| t.len() >= MIN_CHUNK_CHARS)
}

/// The texts that are kept: the long ones, or all of them if there is no long one.
pub open spec fn kept_texts(texts: Seq<Seq<char>>) -> Seq<Seq<char>> {
    if long_texts(texts).len() > 0 {
        long_texts(texts)
    } else {
        texts
    }
}

/// The texts of the chunks of a document.
pub open spec fn chunk_texts(content: Seq<char>, chunk_chars: int, overlap: int) -> Seq<Seq<char>> {
    kept_texts(trimmed_texts(packed(segments(content, chunk_chars), chunk_chars, overlap)))
}

/// Chunk number `i` of a document.
pub open spec fn chunk_view(source: Seq<char>, i: int, text: Seq<char>, now: i64) -> ChunkView {
    ChunkView {
        document_id: id_of(source),
        chunk_id: i as usize,
        source: source,
        text: text,
        normalized: normal(text),
        char_count: text.len() as usize,
        token_count: words(text).len() as usize,
        created_at: now,
        metadata: None,
    }
}

/// The chunks of a document that is indexed at time `now`.
pub open spec fn document_chunks(
    cfg: RagConfigView,
    source: Seq<char>,
    content: Seq<char>,
    now: i64,
) -> Seq<ChunkView> {
    let texts = chunk_texts(content, cfg.chunk_chars as int, cfg.overlap_chars as int);
    texts.map(|i: int, t: Seq<char>| chunk_view(source, i, t, now))
}

/// Trims texts and drops those of which nothing is left.
fn trim_all(raw: &Vec<String>) -> (r: Vec<String>)
    ensures
        r.deep_view() == trimmed_texts(raw.deep_view()),
{
    let ghost all = raw.deep_view();
    let mut r: Vec<String> = Vec::new();
    let mut i: usize = 0;
    proof {
        assert(all.take(0) =~= Seq::<Seq<char>>::empty());
        assert(r.deep_view() =~= Seq::<Seq<char>>::empty());
    }
    while i < raw.len()
        invariant
            i <= raw@.len(),
            all == raw.deep_view(),
            all.len() == raw@.len(),
            r.deep_view() == trimmed_texts(all.take(i as int)),
        decreases raw@.len() - i,
    {
        let cs = chars_of(raw[i].as_str());
        proof {
            let next = all.take(i + 1);
            assert(next.drop_last() =~= all.take(i as int));
            assert(next.last() == raw@[i as int]@);
            assert(cs@.subrange(0, cs@.len() as int) =~= cs@);
        }
        push_piece(&mut r, &cs, 0, cs.len());
        i = i + 1;
    }
    proof {
        assert(all.take(i as int) =~= all);
    }
    r
}

/// Drops short texts, unless all of them are short.
fn keep_texts(texts: Vec<String>) -> (r: Vec<String>)
    ensures
        r.deep_view() == kept_texts(texts.deep_view()),
{
    let ghost all = texts.deep_view();
    let mut r: Vec<String> = Vec::new();
    let mut i: usize = 0;
    proof {
        reveal(Seq::filter);
        assert(r.deep_view() =~= long_texts(all.take(0)));
    }
    while i < texts.len()
        invariant
            i <= texts@.len(),
            all == texts.deep_view(),
            all.len() == texts@.len(),
            r.deep_view() == long_texts(all.take(i as int)),
        decreases texts@.len() - i,
    {
        let ghost before = r.deep_view();
        proof {
            reveal(Seq::filter);
            let next = all.take(i + 1);
            assert(next.drop_last() =~= all.take(i as int));
            assert(next.last() == texts@[i as int]@);
        }
        if clen(texts[i].as_str()) >= MIN_CHUNK_CHARS {
            let t = texts[i].clone();
            r.push(t);
            proof {
                assert(r.deep_view() =~= before.push(t@));
            }
        }
        i = i + 1;
    }
    proof {
        assert(all.take(i as int) =~= all);
    }
    if r.len() > 0 {
        return r;
    }
    texts
}

/// Chunks one document, indexed at time `now`.
pub fn chunk_document_at(cfg: &RagConfig, source: &str, content: &str, now: i64) -> (r: Vec<
    StoredChunk,
>)
    requires
        cfg.chunk_chars > 0 || all_white(content@),
    ensures
        r.deep_view() == document_chunks(cfg@, source@, content@, now),
{
    let segs = segment(content, cfg.chunk_chars);
    let raw = pack(&segs, cfg.chunk_chars, cfg.overlap_chars);
    let all = trim_all(&raw);
    let texts = keep_texts(all);
    let document_id = stable_id(source);
    let ghost ts = texts.deep_view();
    let mut r: Vec<StoredChunk> = Vec::new();
    let mut i: usize = 0;
    while i < texts.len()
        invariant
            i <= texts@.len(),
            ts == texts.deep_view(),
            ts.len() == texts@.len(),
            document_id@ == id_of(source@),
            r@.len() == i,
            forall|k: int| 0 <= k < i ==> (#[trigger] r@[k])@ == chunk_view(source@, k, ts[k], now),
        decreases texts@.len() - i,
    {
        let text = texts[i].clone();
        let normalized = normalize(text.as_str());
        let char_count = clen(text.as_str());
        let ws = words_of(text.as_str());
        proof {
            assert(ws.deep_view().len() == ws@.len());
        }
        r.push(
            StoredChunk {
                document_id: document_id.clone(),
                chunk_id: i,
                source: source.to_owned(),
                char_count: char_count,
                token_count: ws.len(),
                normalized: normalized,
                text: text,
                created_at: now,
                metadata: None,
            },
        );
        i = i + 1;
    }
    proof {
        assert(r.deep_view() =~= document_chunks(cfg@, source@, content@, now));
    }
    r
}

/// Chunks one document, indexed now.
pub fn chunk_document(cfg: &RagConfig, source: &str, content: &str) -> (r: Vec<StoredChunk>)
    requires
        cfg.chunk_chars > 0 || all_white(content@),
    ensures
        exists|now: i64| r.deep_view() == document_chunks(cfg@, source@, content@, now),
{
    chunk_document_at(cfg, source, content, now_unix())
}

} // verus!
