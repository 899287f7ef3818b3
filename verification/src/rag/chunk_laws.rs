//! What holds of every document's chunks.
use vstd::prelude::*;

use crate::rag::chunk::{
    blank, chunk_texts, chunk_view, cut, dark_lines, document_chunks, fit_paragraph,
    fit_paragraphs, fit_sentences, hard_pieces, kept_texts, last_white_end, lemma_cut,
    lemma_dark_lines, lemma_last_white_end, lemma_sentence_len, long_texts, paragraphs,
    paragraphs_of, piece, pieces, segments, sentence_len, sentences, trimmed_texts, MIN_CHUNK_CHARS,
};
use crate::rag::pack::{carry, fill, glue, lemma_carry, lemma_fill, packed, spans};
use crate::rag::types::RagConfigView;
use crate::text::{
    all_white, dark_mask, join, lemma_run_len, lemma_trim, lemma_trim_empty, lines, run_len, runs,
    trim, white, words,
};
use crate::words::{
    flat_words, lemma_dark_has_words, lemma_flat_words_add, lemma_flat_words_from,
    lemma_flat_words_has, lemma_flat_words_one, lemma_run_bounds, lemma_stretch_in_word,
    lemma_white_has_no_words, lemma_words_around, lemma_words_join, lemma_words_lines, lemma_words_split, lemma_words_trim,
};

verus! {

// ── Words ────────────────────────────────────────────────────────────────────

proof fn lemma_words_piece(s: Seq<char>)
    ensures
        flat_words(piece(s)) == words(s),
{
    lemma_words_trim(s);
    if trim(s).len() > 0 {
        lemma_flat_words_one(trim(s));
    } else {
        lemma_white_has_no_words(trim(s));
    }
}

proof fn lemma_words_paragraphs_of(ls: Seq<Seq<char>>)
    ensures
        flat_words(paragraphs_of(ls)) == flat_words(ls),
    decreases ls.len(),
{
    if ls.len() == 0 {
    } else if blank(ls.first()) {
        let d = ls.drop_first();
        lemma_words_paragraphs_of(d);
        lemma_trim_empty(ls.first());
        lemma_white_has_no_words(ls.first());
        lemma_flat_words_one(ls.first());
        lemma_flat_words_add(seq![ls.first()], d);
        assert(seq![ls.first()] + d =~= ls);
        assert(Seq::<Seq<char>>::empty() + flat_words(d) =~= flat_words(d));
    } else {
        lemma_dark_lines(ls);
        let n = dark_lines(ls) as int;
        let para = trim(join(ls.take(n), "\n"@));
        lemma_words_paragraphs_of(ls.skip(n));
        lemma_words_join(ls.take(n));
        lemma_words_trim(join(ls.take(n), "\n"@));
        lemma_flat_words_one(para);
        lemma_flat_words_add(seq![para], paragraphs_of(ls.skip(n)));
        lemma_flat_words_add(ls.take(n), ls.skip(n));
        assert(ls.take(n) + ls.skip(n) =~= ls);
    }
}

proof fn lemma_words_sentences(s: Seq<char>)
    ensures
        flat_words(sentences(s)) == words(s),
    decreases s.len(),
{
    if s.len() == 0 {
        lemma_white_has_no_words(s);
    } else {
        lemma_sentence_len(s);
        let n = sentence_len(s) as int;
        lemma_words_sentences(s.skip(n));
        lemma_words_piece(s.take(n));
        lemma_flat_words_add(piece(s.take(n)), sentences(s.skip(n)));
        if n < s.len() {
            assert(s.skip(n).first() == s[n]);
        }
        lemma_words_split(s.take(n), s.skip(n));
        assert(s.take(n) + s.skip(n) =~= s);
    }
}

/// Every piece of `s` but the last ends next to whitespace.
pub open spec fn clean_pieces(s: Seq<char>, max: int) -> bool
    decreases s.len(),
{
    if s.len() == 0 || max <= 0 {
        true
    } else {
        proof {
            lemma_cut(s, max);
        }
        let n = cut(s, max);
        (n == s.len() || white(s[n - 1]) || white(s[n])) && clean_pieces(s.skip(n), max)
    }
}

/// Every sentence of a paragraph fits, or has pieces that end next to whitespace.
pub open spec fn clean_sentences(ss: Seq<Seq<char>>, limit: int) -> bool {
    forall|i: int|
        0 <= i < ss.len() ==> (#[trigger] ss[i]).len() <= limit || clean_pieces(ss[i], limit)
}

/// Every paragraph fits, or has clean sentences.
pub open spec fn clean_paragraphs(ps: Seq<Seq<char>>, limit: int) -> bool {
    forall|i: int|
        0 <= i < ps.len() ==> (#[trigger] ps[i]).len() <= limit || clean_sentences(
            sentences(ps[i]),
            limit,
        )
}

/// No piece of a text ends within a word.
pub open spec fn clean(s: Seq<char>, limit: int) -> bool {
    clean_paragraphs(paragraphs(s), limit)
}

proof fn lemma_words_pieces(s: Seq<char>, max: int)
    requires
        max > 0,
        clean_pieces(s, max),
    ensures
        flat_words(pieces(s, max)) == words(s),
    decreases s.len(),
{
    if s.len() == 0 {
        lemma_white_has_no_words(s);
    } else {
        lemma_cut(s, max);
        let n = cut(s, max);
        let a = s.take(n);
        let b = s.skip(n);
        assert(a.last() == s[n - 1]);
        if n < s.len() {
            assert(b.first() == s[n]);
        }
        assert(a + b =~= s);
        lemma_words_split(a, b);
        lemma_words_pieces(b, max);
        lemma_words_piece(a);
        lemma_flat_words_add(piece(a), pieces(b, max));
    }
}

proof fn lemma_words_fit_sentences(ss: Seq<Seq<char>>, limit: int)
    requires
        limit > 0,
        clean_sentences(ss, limit),
    ensures
        flat_words(fit_sentences(ss, limit)) == flat_words(ss),
    decreases ss.len(),
{
    if ss.len() > 0 {
        let d = ss.drop_last();
        assert forall|i: int| 0 <= i < d.len() implies (#[trigger] d[i]).len() <= limit
            || clean_pieces(d[i], limit) by {
            assert(d[i] == ss[i]);
        }
        lemma_words_fit_sentences(d, limit);
        assert(ss[ss.len() - 1].len() <= limit || clean_pieces(ss[ss.len() - 1], limit));
        if ss.last().len() <= limit {
            lemma_flat_words_one(ss.last());
        } else {
            lemma_words_pieces(ss.last(), limit);
        }
        lemma_flat_words_add(fit_sentences(d, limit), hard_pieces(ss.last(), limit));
    }
}

proof fn lemma_words_fit_paragraphs(ps: Seq<Seq<char>>, limit: int)
    requires
        limit > 0,
        clean_paragraphs(ps, limit),
    ensures
        flat_words(fit_paragraphs(ps, limit)) == flat_words(ps),
    decreases ps.len(),
{
    if ps.len() > 0 {
        let d = ps.drop_last();
        assert forall|i: int| 0 <= i < d.len() implies (#[trigger] d[i]).len() <= limit
            || clean_sentences(sentences(d[i]), limit) by {
            assert(d[i] == ps[i]);
        }
        lemma_words_fit_paragraphs(d, limit);
        let para = ps.last();
        assert(ps[ps.len() - 1].len() <= limit || clean_sentences(
            sentences(ps[ps.len() - 1]),
            limit,
        ));
        if para.len() <= limit {
            lemma_flat_words_one(para);
        } else {
            lemma_words_sentences(para);
            lemma_words_fit_sentences(sentences(para), limit);
        }
        lemma_flat_words_add(fit_paragraphs(d, limit), fit_paragraph(para, limit));
    }
}

/// Splitting a text into paragraphs loses no word and splits none.
pub proof fn paragraphs_keep_the_words(s: Seq<char>)
    ensures
        flat_words(paragraphs(s)) == words(s),
{
    lemma_words_lines(s);
    lemma_words_paragraphs_of(lines(s));
}

/// Splitting a paragraph into sentences loses no word and splits none.
pub proof fn sentences_keep_the_words(s: Seq<char>)
    ensures
        flat_words(sentences(s)) == words(s),
{
    lemma_words_sentences(s);
}

/// Breaking a text into segments loses no word and splits none, unless a piece
/// of it ends within a word.
pub proof fn segments_keep_the_words(s: Seq<char>, limit: int)
    requires
        limit > 0,
        clean(s, limit),
    ensures
        flat_words(segments(s, limit)) == words(s),
{
    paragraphs_keep_the_words(s);
    lemma_words_fit_paragraphs(paragraphs(s), limit);
}

/// Every word of `s` is shorter than `h`.
pub open spec fn words_below(s: Seq<char>, h: int) -> bool {
    forall|w: Seq<char>| #[trigger] words(s).contains(w) ==> w.len() < h
}

proof fn lemma_words_below_part(parts: Seq<Seq<char>>, s: Seq<char>, i: int, h: int)
    requires
        flat_words(parts) == words(s),
        words_below(s, h),
        0 <= i < parts.len(),
    ensures
        words_below(parts[i], h),
{
    assert forall|w: Seq<char>| #[trigger] words(parts[i]).contains(w) implies w.len() < h by {
        lemma_flat_words_has(parts, i, w);
        assert(words(s).contains(w));
    }
}

proof fn lemma_short_words(s: Seq<char>, max: int)
    requires
        max > 0,
        words_below(s, max + 1),
    ensures
        clean_pieces(s, max),
    decreases s.len(),
{
    if s.len() > 0 {
        lemma_cut(s, max);
        let n = cut(s, max);
        let a = s.take(n);
        let b = s.skip(n);
        if s.len() > max {
            lemma_last_white_end(s, max);
            let e = last_white_end(s, max);
            if e == 0 && !white(s[max]) {
                let i = lemma_stretch_in_word(s, 0, max + 1);
                assert(words(s).contains(words(s)[i]));
            }
            assert(a.last() == s[n - 1]);
            assert(b.first() == s[n]);
        }
        assert(a + b =~= s);
        lemma_words_split(a, b);
        assert forall|w: Seq<char>| #[trigger] words(b).contains(w) implies w.len() < max + 1 by {
            let k = choose|k: int| 0 <= k < words(b).len() && words(b)[k] == w;
            assert(words(s)[words(a).len() + k] == w);
            assert(words(s).contains(w));
        }
        lemma_short_words(b, max);
    }
}

/// Where every word fits a chunk, no piece ends within a word.
pub proof fn short_words_are_never_cut(s: Seq<char>, limit: int)
    requires
        limit > 0,
        words_below(s, limit + 1),
    ensures
        clean(s, limit),
{
    let h = limit + 1;
    let ps = paragraphs(s);
    paragraphs_keep_the_words(s);
    assert forall|i: int| 0 <= i < ps.len() implies (#[trigger] ps[i]).len() <= limit
        || clean_sentences(sentences(ps[i]), limit) by {
        let ss = sentences(ps[i]);
        lemma_words_below_part(ps, s, i, h);
        lemma_words_sentences(ps[i]);
        assert forall|j: int| 0 <= j < ss.len() implies (#[trigger] ss[j]).len() <= limit
            || clean_pieces(ss[j], limit) by {
            lemma_words_below_part(ss, ps[i], j, h);
            lemma_short_words(ss[j], limit);
        }
    }
}

proof fn lemma_words_glue(segs: Seq<Seq<char>>)
    ensures
        words(glue(segs)) == flat_words(segs),
    decreases segs.len(),
{
    if segs.len() == 0 {
        lemma_white_has_no_words(Seq::empty());
    } else {
        let above = glue(segs.drop_last());
        lemma_words_glue(segs.drop_last());
        if above.len() == 0 {
            lemma_white_has_no_words(above);
            assert(Seq::<Seq<char>>::empty() + words(segs.last()) =~= words(segs.last()));
        } else {
            lemma_words_around(above, '\n', segs.last());
        }
    }
}

// ── Segments ─────────────────────────────────────────────────────────────────

/// A text that starts and ends with something else than whitespace.
pub open spec fn dark(s: Seq<char>) -> bool {
    s.len() > 0 && !white(s.first()) && !white(s.last())
}

/// A trimmed text that is not empty and fits `limit`.
pub open spec fn sound(s: Seq<char>, limit: int) -> bool {
    dark(s) && s.len() <= limit
}

proof fn lemma_join_dark(parts: Seq<Seq<char>>, sep: Seq<char>)
    requires
        parts.len() > 0,
        !all_white(parts[0]),
    ensures
        !all_white(join(parts, sep)),
    decreases parts.len(),
{
    if parts.len() > 1 {
        let d = parts.drop_last();
        lemma_join_dark(d, sep);
        let j = join(d, sep);
        let k = choose|k: int| 0 <= k < j.len() && !white(#[trigger] j[k]);
        assert(join(parts, sep)[k] == j[k]);
    }
}

proof fn lemma_piece_dark(s: Seq<char>)
    ensures
        forall|i: int| 0 <= i < piece(s).len() ==> dark(#[trigger] piece(s)[i]) && piece(s)[i].len()
            <= s.len(),
{
    lemma_trim(s);
}

proof fn lemma_paragraphs_dark(ls: Seq<Seq<char>>)
    ensures
        forall|i: int| 0 <= i < paragraphs_of(ls).len() ==> dark(#[trigger] paragraphs_of(ls)[i]),
    decreases ls.len(),
{
    if ls.len() == 0 {
        assert(paragraphs_of(ls).len() == 0);
    } else if blank(ls.first()) {
        lemma_paragraphs_dark(ls.drop_first());
        assert(paragraphs_of(ls) == paragraphs_of(ls.drop_first()));
    } else {
        lemma_dark_lines(ls);
        let n = dark_lines(ls) as int;
        let run = ls.take(n);
        let rest = paragraphs_of(ls.skip(n));
        lemma_paragraphs_dark(ls.skip(n));
        lemma_trim_empty(ls.first());
        assert(run[0] == ls.first());
        lemma_join_dark(run, "\n"@);
        lemma_trim_empty(join(run, "\n"@));
        lemma_trim(join(run, "\n"@));
        assert forall|i: int| 0 <= i < paragraphs_of(ls).len() implies dark(
            #[trigger] paragraphs_of(ls)[i],
        ) by {
            if i > 0 {
                assert(paragraphs_of(ls)[i] == rest[i - 1]);
            }
        }
    }
}

proof fn lemma_sentences_dark(s: Seq<char>)
    ensures
        forall|i: int| 0 <= i < sentences(s).len() ==> dark(#[trigger] sentences(s)[i]),
    decreases s.len(),
{
    if s.len() > 0 {
        lemma_sentence_len(s);
        let n = sentence_len(s) as int;
        let head = piece(s.take(n));
        let rest = sentences(s.skip(n));
        lemma_sentences_dark(s.skip(n));
        lemma_piece_dark(s.take(n));
        assert forall|i: int| 0 <= i < sentences(s).len() implies dark(
            #[trigger] sentences(s)[i],
        ) by {
            if i < head.len() {
                assert(sentences(s)[i] == head[i]);
            } else {
                assert(sentences(s)[i] == rest[i - head.len()]);
            }
        }
    }
}

proof fn lemma_pieces_sound(s: Seq<char>, max: int)
    requires
        max > 0,
    ensures
        forall|i: int| 0 <= i < pieces(s, max).len() ==> sound(#[trigger] pieces(s, max)[i], max),
    decreases s.len(),
{
    if s.len() > 0 {
        lemma_cut(s, max);
        let n = cut(s, max);
        let head = piece(s.take(n));
        let rest = pieces(s.skip(n), max);
        lemma_pieces_sound(s.skip(n), max);
        lemma_piece_dark(s.take(n));
        assert forall|i: int| 0 <= i < pieces(s, max).len() implies sound(
            #[trigger] pieces(s, max)[i],
            max,
        ) by {
            if i < head.len() {
                assert(pieces(s, max)[i] == head[i]);
            } else {
                assert(pieces(s, max)[i] == rest[i - head.len()]);
            }
        }
    }
}

proof fn lemma_fit_sentences_sound(ss: Seq<Seq<char>>, limit: int)
    requires
        limit > 0,
        forall|i: int| 0 <= i < ss.len() ==> dark(#[trigger] ss[i]),
    ensures
        forall|i: int|
            0 <= i < fit_sentences(ss, limit).len() ==> sound(
                #[trigger] fit_sentences(ss, limit)[i],
                limit,
            ),
    decreases ss.len(),
{
    if ss.len() > 0 {
        let head = fit_sentences(ss.drop_last(), limit);
        let tail = hard_pieces(ss.last(), limit);
        lemma_fit_sentences_sound(ss.drop_last(), limit);
        lemma_pieces_sound(ss.last(), limit);
        assert(dark(ss[ss.len() - 1]));
        assert forall|i: int| 0 <= i < fit_sentences(ss, limit).len() implies sound(
            #[trigger] fit_sentences(ss, limit)[i],
            limit,
        ) by {
            if i < head.len() {
                assert(fit_sentences(ss, limit)[i] == head[i]);
            } else {
                assert(fit_sentences(ss, limit)[i] == tail[i - head.len()]);
            }
        }
    }
}

proof fn lemma_fit_paragraphs_sound(ps: Seq<Seq<char>>, limit: int)
    requires
        limit > 0,
        forall|i: int| 0 <= i < ps.len() ==> dark(#[trigger] ps[i]),
    ensures
        forall|i: int|
            0 <= i < fit_paragraphs(ps, limit).len() ==> sound(
                #[trigger] fit_paragraphs(ps, limit)[i],
                limit,
            ),
    decreases ps.len(),
{
    if ps.len() > 0 {
        let head = fit_paragraphs(ps.drop_last(), limit);
        let tail = fit_paragraph(ps.last(), limit);
        lemma_fit_paragraphs_sound(ps.drop_last(), limit);
        assert(dark(ps[ps.len() - 1]));
        lemma_sentences_dark(ps.last());
        lemma_fit_sentences_sound(sentences(ps.last()), limit);
        assert forall|i: int| 0 <= i < fit_paragraphs(ps, limit).len() implies sound(
            #[trigger] fit_paragraphs(ps, limit)[i],
            limit,
        ) by {
            if i < head.len() {
                assert(fit_paragraphs(ps, limit)[i] == head[i]);
            } else {
                assert(fit_paragraphs(ps, limit)[i] == tail[i - head.len()]);
            }
        }
    }
}

/// Every segment is trimmed, not empty, and no larger than a chunk.
pub proof fn segments_fit(s: Seq<char>, limit: int)
    requires
        limit > 0,
    ensures
        forall|i: int|
            0 <= i < segments(s, limit).len() ==> sound(#[trigger] segments(s, limit)[i], limit),
{
    lemma_paragraphs_dark(lines(s));
    lemma_fit_paragraphs_sound(paragraphs(s), limit);
}

/// A paragraph or a sentence that fits a chunk is never split.
pub proof fn what_fits_is_not_split(para: Seq<char>, limit: int)
    ensures
        para.len() <= limit ==> fit_paragraph(para, limit) == seq![para],
        (forall|i: int| 0 <= i < sentences(para).len() ==> (#[trigger] sentences(para)[i]).len()
            <= limit) && para.len() > limit ==> fit_paragraph(para, limit) == sentences(para),
{
    let ss = sentences(para);
    if (forall|i: int| 0 <= i < ss.len() ==> (#[trigger] ss[i]).len() <= limit) {
        lemma_fitting_sentences(ss, limit);
    }
}

proof fn lemma_fitting_sentences(ss: Seq<Seq<char>>, limit: int)
    requires
        forall|i: int| 0 <= i < ss.len() ==> (#[trigger] ss[i]).len() <= limit,
    ensures
        fit_sentences(ss, limit) == ss,
    decreases ss.len(),
{
    if ss.len() > 0 {
        lemma_fitting_sentences(ss.drop_last(), limit);
        assert(ss[ss.len() - 1].len() <= limit);
        assert(ss.drop_last() + seq![ss.last()] =~= ss);
    } else {
        assert(fit_sentences(ss, limit) =~= ss);
    }
}

// ── Spans ────────────────────────────────────────────────────────────────────

/// Characters that segments `a..b` take when carried over, each with its line
/// feed.
pub open spec fn carried(segs: Seq<Seq<char>>, a: int, b: int) -> int
    decreases b - a,
{
    if a >= b {
        0
    } else {
        carried(segs, a + 1, b) + segs[a].len() + 1
    }
}

proof fn lemma_carry_fits(segs: Seq<Seq<char>>, i: int, end: int, start: int, overlap: int)
    requires
        0 <= i < start <= end <= segs.len(),
        carried(segs, start, end) <= overlap,
    ensures
        carried(
            segs,
            carry(segs, i, start, carried(segs, start, end), overlap),
            end,
        ) <= overlap,
    decreases start,
{
    let used = carried(segs, start, end);
    if !(start <= i + 1 || start <= 0 || used + segs[start - 1].len() + 1 > overlap) {
        assert(carried(segs, start - 1, end) == used + segs[start - 1].len() + 1);
        lemma_carry_fits(segs, i, end, start - 1, overlap);
    }
}

/// Spans that cover `n` segments from segment `from` on.
pub open spec fn covers(sp: Seq<(int, int)>, from: int, n: int) -> bool {
    &&& sp.len() > 0
    &&& sp[0].0 == from
    &&& sp.last().1 == n
    &&& forall|k: int| 0 <= k < sp.len() ==> from <= (#[trigger] sp[k]).0 < sp[k].1 <= n
    &&& forall|k: int|
        0 < k < sp.len() ==> sp[k - 1].0 < (#[trigger] sp[k]).0 && sp[k].0 <= sp[k - 1].1
}

proof fn lemma_spans(segs: Seq<Seq<char>>, i: int, limit: int, overlap: int)
    requires
        0 <= i < segs.len(),
        overlap >= 0,
    ensures
        covers(spans(segs, i, limit, overlap), i, segs.len() as int),
        forall|k: int|
            0 < k < spans(segs, i, limit, overlap).len() ==> carried(
                segs,
                (#[trigger] spans(segs, i, limit, overlap)[k]).0,
                spans(segs, i, limit, overlap)[k - 1].1,
            ) <= overlap,
        forall|k: int|
            0 <= k < spans(segs, i, limit, overlap).len() ==> (#[trigger] spans(
                segs,
                i,
                limit,
                overlap,
            )[k]).1 == fill(
                segs,
                spans(segs, i, limit, overlap)[k].0,
                spans(segs, i, limit, overlap)[k].0,
                limit,
            ),
    decreases segs.len() - i,
{
    lemma_fill(segs, i, i, limit);
    let j = fill(segs, i, i, limit);
    let sp = spans(segs, i, limit, overlap);
    if j < segs.len() {
        lemma_carry(segs, i, j, 0, overlap);
        assert(carried(segs, j, j) == 0);
        lemma_carry_fits(segs, i, j, j, overlap);
        let next = carry(segs, i, j, 0, overlap);
        lemma_spans(segs, next, limit, overlap);
        let rest = spans(segs, next, limit, overlap);
        assert(sp == seq![(i, j)] + rest);
        assert(sp.last() == rest.last());
        assert forall|k: int| 0 <= k < sp.len() implies i <= (#[trigger] sp[k]).0 < sp[k].1
            <= segs.len() && sp[k].1 == fill(segs, sp[k].0, sp[k].0, limit) by {
            if k > 0 {
                assert(sp[k] == rest[k - 1]);
            }
        }
        assert forall|k: int| 0 < k < sp.len() implies sp[k - 1].0 < (#[trigger] sp[k]).0
            && sp[k].0 <= sp[k - 1].1 && carried(segs, sp[k].0, sp[k - 1].1) <= overlap by {
            assert(sp[k] == rest[k - 1]);
            if k > 1 {
                assert(sp[k - 1] == rest[k - 2]);
            }
        }
    } else {
        assert(sp == seq![(i, j)]);
    }
}

/// The chunks of a document cover its segments from the first to the last, each
/// chunk starts behind the start of the one before and not behind its end, and
/// what two consecutive chunks share takes at most `overlap` characters.
pub proof fn chunks_cover_and_overlap(segs: Seq<Seq<char>>, limit: int, overlap: int)
    requires
        segs.len() > 0,
        overlap >= 0,
    ensures
        covers(spans(segs, 0, limit, overlap), 0, segs.len() as int),
        forall|k: int|
            0 < k < spans(segs, 0, limit, overlap).len() ==> carried(
                segs,
                (#[trigger] spans(segs, 0, limit, overlap)[k]).0,
                spans(segs, 0, limit, overlap)[k - 1].1,
            ) <= overlap,
{
    lemma_spans(segs, 0, limit, overlap);
}

/// No segment is lost: every one stands in some chunk.
pub proof fn no_segment_is_lost(segs: Seq<Seq<char>>, limit: int, overlap: int, m: int)
    requires
        0 <= m < segs.len(),
        overlap >= 0,
    ensures
        exists|k: int|
            0 <= k < spans(segs, 0, limit, overlap).len() && (#[trigger] spans(
                segs,
                0,
                limit,
                overlap,
            )[k]).0 <= m < spans(segs, 0, limit, overlap)[k].1,
{
    let sp = spans(segs, 0, limit, overlap);
    lemma_spans(segs, 0, limit, overlap);
    let k = lemma_covered(sp, 0, segs.len() as int, m, sp.len() - 1);
    assert(sp[k].0 <= m < sp[k].1);
}

proof fn lemma_covered(sp: Seq<(int, int)>, from: int, n: int, m: int, last: int) -> (k: int)
    requires
        covers(sp, from, n),
        from <= m,
        0 <= last < sp.len(),
        m < sp[last].1,
    ensures
        0 <= k < sp.len(),
        sp[k].0 <= m < sp[k].1,
    decreases last,
{
    if sp[last].0 <= m {
        last
    } else {
        assert(last > 0);
        assert(sp[last].0 <= sp[last - 1].1);
        lemma_covered(sp, from, n, m, last - 1)
    }
}

// ── Chunks ───────────────────────────────────────────────────────────────────

/// All texts are trimmed, not empty, and fit `limit`.
pub open spec fn all_sound(texts: Seq<Seq<char>>, limit: int) -> bool {
    forall|i: int| 0 <= i < texts.len() ==> sound(#[trigger] texts[i], limit)
}

proof fn lemma_glue_dark(segs: Seq<Seq<char>>)
    requires
        segs.len() > 0,
        forall|i: int| 0 <= i < segs.len() ==> dark(#[trigger] segs[i]),
    ensures
        dark(glue(segs)),
    decreases segs.len(),
{
    let d = segs.drop_last();
    assert(dark(segs[segs.len() - 1]));
    if d.len() > 0 {
        lemma_glue_dark(d);
        let above = glue(d);
        assert(glue(segs) == above + seq!['\n'] + segs.last());
        assert(glue(segs).first() == above.first());
        assert(glue(segs).last() == segs.last().last());
    } else {
        assert(glue(d).len() == 0);
    }
}

proof fn lemma_fill_fits(segs: Seq<Seq<char>>, i: int, j: int, limit: int)
    requires
        0 <= i <= j <= segs.len(),
        all_sound(segs, limit),
        j > i ==> glue(segs.subrange(i, j)).len() <= limit,
    ensures
        fill(segs, i, j, limit) > i ==> glue(
            segs.subrange(i, fill(segs, i, j, limit)),
        ).len() <= limit,
    decreases segs.len() - j,
{
    if j < segs.len() {
        let held = glue(segs.subrange(i, j)).len();
        if !(held > 0 && held + 1 + segs[j].len() > limit) {
            let next = segs.subrange(i, j + 1);
            assert(next.drop_last() =~= segs.subrange(i, j));
            assert(next.last() == segs[j]);
            assert(sound(segs[j], limit));
            lemma_fill_fits(segs, i, j + 1, limit);
        }
    }
}

proof fn lemma_packed_sound(segs: Seq<Seq<char>>, limit: int, overlap: int)
    requires
        all_sound(segs, limit),
        overlap >= 0,
    ensures
        all_sound(packed(segs, limit, overlap), limit),
        packed(segs, limit, overlap).len() == 0 <==> segs.len() == 0,
{
    if segs.len() > 0 {
        let sp = spans(segs, 0, limit, overlap);
        let texts = packed(segs, limit, overlap);
        lemma_spans(segs, 0, limit, overlap);
        assert forall|k: int| 0 <= k < texts.len() implies sound(#[trigger] texts[k], limit) by {
            let (a, b) = sp[k];
            assert(sp[k].1 == fill(segs, sp[k].0, sp[k].0, limit));
            lemma_fill_fits(segs, a, a, limit);
            let part = segs.subrange(a, b);
            assert(texts[k] == glue(part));
            assert forall|i: int| 0 <= i < part.len() implies dark(#[trigger] part[i]) by {
                assert(sound(segs[a + i], limit));
            }
            lemma_glue_dark(part);
        }
    }
}

proof fn lemma_trimmed_sound(texts: Seq<Seq<char>>, limit: int)
    requires
        all_sound(texts, limit),
    ensures
        trimmed_texts(texts) == texts,
    decreases texts.len(),
{
    if texts.len() > 0 {
        let d = texts.drop_last();
        assert forall|i: int| 0 <= i < d.len() implies sound(#[trigger] d[i], limit) by {
            assert(d[i] == texts[i]);
        }
        lemma_trimmed_sound(d, limit);
        assert(sound(texts[texts.len() - 1], limit));
        assert(trim(texts.last()) == texts.last());
        assert(d + seq![texts.last()] =~= texts);
    } else {
        assert(trimmed_texts(texts) =~= texts);
    }
}

proof fn lemma_kept(texts: Seq<Seq<char>>)
    ensures
        forall|i: int|
            0 <= i < kept_texts(texts).len() ==> texts.contains(#[trigger] kept_texts(texts)[i]),
        kept_texts(texts).len() == 0 <==> texts.len() == 0,
{
    let p = |t: Seq<char>| t.len() >= MIN_CHUNK_CHARS;
    if long_texts(texts).len() > 0 {
        assert forall|i: int| 0 <= i < kept_texts(texts).len() implies texts.contains(
            #[trigger] kept_texts(texts)[i],
        ) by {
            assert(long_texts(texts) == texts.filter(p));
            assert(texts.filter(p).contains(texts.filter(p)[i]));
            texts.lemma_filter_contains_rev(p, texts.filter(p)[i]);
        }
        if texts.len() == 0 {
            assert(texts.contains(kept_texts(texts)[0]));
        }
    }
}

proof fn lemma_some_pieces(s: Seq<char>, limit: int)
    requires
        dark(s),
        limit > 0,
    ensures
        hard_pieces(s, limit).len() > 0,
{
    if s.len() > limit {
        lemma_cut(s, limit);
        let head = s.take(cut(s, limit));
        assert(head[0] == s[0]);
        assert(!all_white(head));
        lemma_trim_empty(head);
    }
}

proof fn lemma_some_segments(s: Seq<char>, limit: int)
    requires
        limit > 0,
    ensures
        segments(s, limit).len() == 0 <==> all_white(s),
{
    let ps = paragraphs(s);
    paragraphs_keep_the_words(s);
    lemma_dark_has_words(s);
    lemma_paragraphs_dark(lines(s));
    if ps.len() == 0 {
        assert(flat_words(ps).len() == 0);
        assert(segments(s, limit).len() == 0);
    } else {
        let para = ps.last();
        assert(dark(ps[ps.len() - 1]));
        assert(fit_paragraph(para, limit).len() > 0) by {
            if para.len() > limit {
                let ss = sentences(para);
                sentences_keep_the_words(para);
                lemma_dark_has_words(para);
                assert(!white(para[0]));
                assert(ss.len() > 0) by {
                    if ss.len() == 0 {
                        assert(flat_words(ss).len() == 0);
                    }
                }
                lemma_sentences_dark(para);
                assert(dark(ss[ss.len() - 1]));
                lemma_some_pieces(ss.last(), limit);
            }
        }
        assert(segments(s, limit).len() > 0);
        assert(words(ps[ps.len() - 1]).len() > 0) by {
            lemma_dark_has_words(para);
            assert(!white(para[0]));
        }
        let w = words(para)[0];
        assert(words(para).contains(w));
        lemma_flat_words_has(ps, ps.len() - 1, w);
    }
}

/// Every chunk is trimmed, holds at least one character and at most
/// `chunk_chars`; and a document has no chunk only where it is all whitespace.
pub proof fn chunks_fit(content: Seq<char>, chunk_chars: int, overlap: int)
    requires
        chunk_chars > 0,
        overlap >= 0,
    ensures
        all_sound(chunk_texts(content, chunk_chars, overlap), chunk_chars),
        chunk_texts(content, chunk_chars, overlap).len() == 0 <==> all_white(content),
        chunk_texts(content, chunk_chars, overlap) == kept_texts(
            packed(segments(content, chunk_chars), chunk_chars, overlap),
        ),
{
    let segs = segments(content, chunk_chars);
    let texts = packed(segs, chunk_chars, overlap);
    segments_fit(content, chunk_chars);
    lemma_some_segments(content, chunk_chars);
    lemma_packed_sound(segs, chunk_chars, overlap);
    lemma_trimmed_sound(texts, chunk_chars);
    lemma_kept(texts);
    let kept = kept_texts(texts);
    assert forall|i: int| 0 <= i < kept.len() implies sound(#[trigger] kept[i], chunk_chars) by {
        assert(texts.contains(kept[i]));
        let k = choose|k: int| 0 <= k < texts.len() && texts[k] == kept[i];
        assert(sound(texts[k], chunk_chars));
    }
}

proof fn lemma_long_texts(texts: Seq<Seq<char>>)
    ensures
        forall|i: int|
            0 <= i < long_texts(texts).len() ==> (#[trigger] long_texts(texts)[i]).len()
                >= MIN_CHUNK_CHARS,
        long_texts(texts).len() == 0 ==> forall|i: int|
            0 <= i < texts.len() ==> (#[trigger] texts[i]).len() < MIN_CHUNK_CHARS,
{
    let p = |t: Seq<char>| t.len() >= MIN_CHUNK_CHARS;
    let r = texts.filter(p);
    assert forall|i: int| 0 <= i < r.len() implies (#[trigger] r[i]).len() >= MIN_CHUNK_CHARS by {
        assert(r.contains(r[i]));
        texts.lemma_filter_contains_rev(p, r[i]);
        assert(p(r[i]));
    }
    assert forall|i: int| r.len() == 0 && 0 <= i < texts.len() implies (#[trigger] texts[i]).len()
        < MIN_CHUNK_CHARS by {
        if p(texts[i]) {
            texts.lemma_filter_contains(p, i);
            assert(r.contains(texts[i]));
        }
    }
}

/// A document whose chunks are all shorter than [`MIN_CHUNK_CHARS`] is kept whole;
/// any other loses exactly its shorter chunks.
pub proof fn short_documents_are_kept_whole(content: Seq<char>, chunk_chars: int, overlap: int)
    requires
        chunk_chars > 0,
        overlap >= 0,
    ensures
        ({
            let all = packed(segments(content, chunk_chars), chunk_chars, overlap);
            let kept = chunk_texts(content, chunk_chars, overlap);
            &&& (forall|i: int| 0 <= i < all.len() ==> (#[trigger] all[i]).len() < MIN_CHUNK_CHARS)
                ==> kept == all
            &&& forall|i: int|
                0 <= i < all.len() && (#[trigger] all[i]).len() >= MIN_CHUNK_CHARS
                    ==> kept.contains(all[i])
        }),
{
    let all = packed(segments(content, chunk_chars), chunk_chars, overlap);
    let p = |t: Seq<char>| t.len() >= MIN_CHUNK_CHARS;
    chunks_fit(content, chunk_chars, overlap);
    lemma_long_texts(all);
    lemma_kept(all);
    assert(long_texts(all) == all.filter(p));
    if (forall|i: int| 0 <= i < all.len() ==> (#[trigger] all[i]).len() < MIN_CHUNK_CHARS) {
        if long_texts(all).len() > 0 {
            let t = long_texts(all)[0];
            assert(kept_texts(all)[0] == t);
            assert(all.contains(t));
            let k = choose|k: int| 0 <= k < all.len() && all[k] == t;
            assert(all[k].len() < MIN_CHUNK_CHARS);
        }
    }
    assert forall|i: int|
        0 <= i < all.len() && (#[trigger] all[i]).len() >= MIN_CHUNK_CHARS implies chunk_texts(
        content,
        chunk_chars,
        overlap,
    ).contains(all[i]) by {
        all.lemma_filter_contains(p, i);
        assert(all.filter(p).contains(all[i]));
    }
}

proof fn lemma_word_count(s: Seq<char>)
    ensures
        words(s).len() <= s.len(),
{
    lemma_run_count(s, dark_mask(s));
}

proof fn lemma_run_count(s: Seq<char>, m: Seq<bool>)
    requires
        s.len() == m.len(),
    ensures
        runs(s, m).len() <= s.len(),
    decreases m.len(),
{
    if m.len() > 0 {
        if m[0] {
            lemma_run_len(m);
            let n = run_len(m) as int;
            lemma_run_count(s.skip(n), m.skip(n));
        } else {
            lemma_run_count(s.drop_first(), m.drop_first());
        }
    }
}

/// The chunks of a document are numbered from 0 on, stand under the id of their
/// source, tell their own size and their number of words, and carry no metadata.
/// Either all of them are long enough, or none is and none was dropped.
pub proof fn chunks_are_numbered(
    cfg: RagConfigView,
    source: Seq<char>,
    content: Seq<char>,
    now: i64,
    i: int,
)
    requires
        cfg.chunk_chars > 0,
        document_chunks(cfg, source, content, now).len() <= usize::MAX,
        0 <= i < document_chunks(cfg, source, content, now).len(),
    ensures
        ({
            let c = document_chunks(cfg, source, content, now)[i];
            &&& c.chunk_id == i
            &&& c.source == source
            &&& c.document_id == crate::rag::types::id_of(source)
            &&& 0 < c.char_count <= cfg.chunk_chars
            &&& c.char_count == c.text.len()
            &&& c.normalized == crate::rag::chunk::normal(c.text)
            &&& c.created_at == now
            &&& c.token_count == words(c.text).len()
            &&& c.metadata is None
            &&& c.char_count >= MIN_CHUNK_CHARS || chunk_texts(
                content,
                cfg.chunk_chars as int,
                cfg.overlap_chars as int,
            ) == packed(
                segments(content, cfg.chunk_chars as int),
                cfg.chunk_chars as int,
                cfg.overlap_chars as int,
            )
        }),
{
    let texts = chunk_texts(content, cfg.chunk_chars as int, cfg.overlap_chars as int);
    let all = packed(
        segments(content, cfg.chunk_chars as int),
        cfg.chunk_chars as int,
        cfg.overlap_chars as int,
    );
    lemma_word_count(texts[i]);
    lemma_long_texts(all);
    chunks_fit(content, cfg.chunk_chars as int, cfg.overlap_chars as int);
    assert(sound(texts[i], cfg.chunk_chars as int));
    assert(document_chunks(cfg, source, content, now)[i] == chunk_view(source, i, texts[i], now));
}

/// Chunking is deterministic: only the time of indexing tells two runs apart.
pub proof fn chunking_is_deterministic(
    cfg: RagConfigView,
    source: Seq<char>,
    content: Seq<char>,
    t: i64,
    u: i64,
)
    ensures
        document_chunks(cfg, source, content, t).len() == document_chunks(
            cfg,
            source,
            content,
            u,
        ).len(),
        forall|i: int|
            0 <= i < document_chunks(cfg, source, content, t).len()
                ==> #[trigger] document_chunks(cfg, source, content, t)[i] == (
            crate::rag::types::ChunkView {
                created_at: t,
                ..document_chunks(cfg, source, content, u)[i]
            }),
{
}

/// Chunking splits no word that fits a chunk: where every word does, every word of
/// a chunk is a word of the document, and every word of the document stands in
/// one of the chunks before short ones are dropped.
pub proof fn words_are_not_split(content: Seq<char>, chunk_chars: int, overlap: int, w: Seq<char>)
    requires
        chunk_chars > 0,
        overlap >= 0,
        words_below(content, chunk_chars + 1),
    ensures
        forall|i: int|
            0 <= i < chunk_texts(content, chunk_chars, overlap).len() && words(
                #[trigger] chunk_texts(content, chunk_chars, overlap)[i],
            ).contains(w) ==> words(content).contains(w),
        words(content).contains(w) ==> exists|i: int|
            0 <= i < packed(segments(content, chunk_chars), chunk_chars, overlap).len() && words(
                #[trigger] packed(segments(content, chunk_chars), chunk_chars, overlap)[i],
            ).contains(w),
{
    let segs = segments(content, chunk_chars);
    let sp = spans(segs, 0, chunk_chars, overlap);
    let texts = packed(segs, chunk_chars, overlap);
    short_words_are_never_cut(content, chunk_chars);
    segments_keep_the_words(content, chunk_chars);
    chunks_fit(content, chunk_chars, overlap);
    lemma_kept(texts);
    let kept = chunk_texts(content, chunk_chars, overlap);
    assert forall|i: int|
        0 <= i < kept.len() && words(#[trigger] kept[i]).contains(w) implies words(
        content,
    ).contains(w) by {
        assert(texts.contains(kept[i]));
        let k = choose|k: int| 0 <= k < texts.len() && texts[k] == kept[i];
        let part = segs.subrange(sp[k].0, sp[k].1);
        assert(segs.len() > 0) by {
            if segs.len() == 0 {
                assert(sp.len() == 0);
            }
        }
        lemma_spans(segs, 0, chunk_chars, overlap);
        assert(0 <= sp[k].0 < sp[k].1 <= segs.len());
        assert(texts[k] == glue(part));
        lemma_words_glue(part);
        let m = lemma_flat_words_from(part, w);
        assert(part[m] == segs[sp[k].0 + m]);
        lemma_flat_words_has(segs, sp[k].0 + m, w);
    }
    if words(content).contains(w) {
        lemma_word_in_a_chunk(segs, chunk_chars, overlap, w);
    }
}

proof fn lemma_long_word(s: Seq<char>, n: int, w: Seq<char>)
    requires
        0 < n < s.len(),
        forall|k: int| 0 <= k <= n ==> !white(#[trigger] s[k]),
        words(s).contains(w),
        w.len() <= n,
    ensures
        words(s.skip(n)).contains(w),
{
    let m = dark_mask(s);
    let b = s.skip(n);
    let mb = dark_mask(b);
    lemma_run_bounds(m);
    lemma_run_bounds(mb);
    let k = run_len(m) as int;
    let j = run_len(mb) as int;
    assert(m[0] && mb[0]) by {
        assert(!white(s[0]) && !white(s[n]));
    }
    assert(k > n) by {
        if k <= n {
            assert(!white(s[k]));
            assert(m[k]);
        }
    }
    assert(j == k - n) by {
        if j < k - n {
            assert(m[n + j]);
            assert(mb[j] == m[n + j]);
        }
        if j > k - n {
            assert(mb[k - n]);
            assert(mb[k - n] == m[k]);
        }
    }
    assert(s.skip(k) =~= b.skip(j));
    assert(m.skip(k) =~= mb.skip(j));
    let rest = runs(s.skip(k), m.skip(k));
    assert(m.first() && mb.first());
    assert(words(s) == seq![s.take(k)] + rest);
    assert(words(b) == seq![b.take(j)] + rest);
    let i = choose|i: int| 0 <= i < words(s).len() && words(s)[i] == w;
    assert(i > 0);
    assert(words(b)[i] == w);
}

proof fn lemma_whole_in_pieces(s: Seq<char>, max: int, w: Seq<char>)
    requires
        max > 0,
        words(s).contains(w),
        w.len() <= max,
    ensures
        flat_words(pieces(s, max)).contains(w),
    decreases s.len(),
{
    if s.len() == 0 {
        lemma_white_has_no_words(s);
    } else {
        lemma_cut(s, max);
        let n = cut(s, max);
        let a = s.take(n);
        let b = s.skip(n);
        assert(a + b =~= s);
        assert(a.last() == s[n - 1]);
        if n < s.len() {
            assert(b.first() == s[n]);
        }
        lemma_words_piece(a);
        lemma_flat_words_add(piece(a), pieces(b, max));
        let all = flat_words(pieces(s, max));
        let head = flat_words(piece(a));
        let tail = flat_words(pieces(b, max));
        if n == s.len() || white(s[n - 1]) || white(s[n]) {
            lemma_words_split(a, b);
            let k = choose|k: int| 0 <= k < words(s).len() && words(s)[k] == w;
            if k < words(a).len() {
                assert(all[k] == w);
            } else {
                assert(words(b)[k - words(a).len()] == w);
                assert(words(b).contains(w));
            }
        } else {
            lemma_last_white_end(s, max);
            assert(n == max);
            lemma_long_word(s, n, w);
        }
        if words(b).contains(w) {
            lemma_whole_in_pieces(b, max, w);
            let k = choose|k: int| 0 <= k < tail.len() && tail[k] == w;
            assert(all[head.len() + k] == w);
        }
    }
}

proof fn lemma_flat_words_of_one(a: Seq<Seq<char>>, b: Seq<Seq<char>>, w: Seq<char>)
    requires
        flat_words(a).contains(w) || flat_words(b).contains(w),
    ensures
        flat_words(a + b).contains(w),
{
    lemma_flat_words_add(a, b);
    let f = flat_words(a);
    let g = flat_words(b);
    let all = flat_words(a + b);
    if f.contains(w) {
        let k = choose|k: int| 0 <= k < f.len() && f[k] == w;
        assert(all[k] == w);
    } else {
        let k = choose|k: int| 0 <= k < g.len() && g[k] == w;
        assert(all[f.len() + k] == w);
    }
}

proof fn lemma_whole_in_hard_pieces(s: Seq<char>, limit: int, w: Seq<char>)
    requires
        limit > 0,
        words(s).contains(w),
        w.len() <= limit,
    ensures
        flat_words(hard_pieces(s, limit)).contains(w),
{
    if s.len() <= limit {
        lemma_flat_words_one(s);
    } else {
        lemma_whole_in_pieces(s, limit, w);
    }
}

proof fn lemma_whole_in_sentences(ss: Seq<Seq<char>>, limit: int, w: Seq<char>)
    requires
        limit > 0,
        flat_words(ss).contains(w),
        w.len() <= limit,
    ensures
        flat_words(fit_sentences(ss, limit)).contains(w),
    decreases ss.len(),
{
    if ss.len() > 0 {
        let d = ss.drop_last();
        let i = lemma_flat_words_from(ss, w);
        if i < d.len() {
            lemma_flat_words_has(d, i, w);
            lemma_whole_in_sentences(d, limit, w);
        } else {
            lemma_whole_in_hard_pieces(ss.last(), limit, w);
        }
        lemma_flat_words_of_one(fit_sentences(d, limit), hard_pieces(ss.last(), limit), w);
    }
}

proof fn lemma_whole_in_paragraphs(ps: Seq<Seq<char>>, limit: int, w: Seq<char>)
    requires
        limit > 0,
        flat_words(ps).contains(w),
        w.len() <= limit,
    ensures
        flat_words(fit_paragraphs(ps, limit)).contains(w),
    decreases ps.len(),
{
    if ps.len() > 0 {
        let d = ps.drop_last();
        let para = ps.last();
        let i = lemma_flat_words_from(ps, w);
        if i < d.len() {
            lemma_flat_words_has(d, i, w);
            lemma_whole_in_paragraphs(d, limit, w);
        } else if para.len() <= limit {
            lemma_flat_words_one(para);
        } else {
            lemma_words_sentences(para);
            lemma_whole_in_sentences(sentences(para), limit, w);
        }
        lemma_flat_words_of_one(fit_paragraphs(d, limit), fit_paragraph(para, limit), w);
    }
}

/// A word that fits a chunk stays whole, whatever other words there are: it stands
/// in one of the chunks before short ones are dropped.
pub proof fn words_that_fit_stay_whole(
    content: Seq<char>,
    chunk_chars: int,
    overlap: int,
    w: Seq<char>,
)
    requires
        chunk_chars > 0,
        overlap >= 0,
        words(content).contains(w),
        w.len() <= chunk_chars,
    ensures
        exists|i: int|
            0 <= i < packed(segments(content, chunk_chars), chunk_chars, overlap).len() && words(
                #[trigger] packed(segments(content, chunk_chars), chunk_chars, overlap)[i],
            ).contains(w),
{
    paragraphs_keep_the_words(content);
    lemma_whole_in_paragraphs(paragraphs(content), chunk_chars, w);
    lemma_word_in_a_chunk(segments(content, chunk_chars), chunk_chars, overlap, w);
}

proof fn lemma_word_in_a_chunk(segs: Seq<Seq<char>>, chunk_chars: int, overlap: int, w: Seq<char>)
    requires
        overlap >= 0,
        flat_words(segs).contains(w),
    ensures
        exists|i: int|
            0 <= i < packed(segs, chunk_chars, overlap).len() && words(
                #[trigger] packed(segs, chunk_chars, overlap)[i],
            ).contains(w),
{
    let sp = spans(segs, 0, chunk_chars, overlap);
    let texts = packed(segs, chunk_chars, overlap);
    let m = lemma_flat_words_from(segs, w);
    no_segment_is_lost(segs, chunk_chars, overlap, m);
    let k = choose|k: int| 0 <= k < sp.len() && (#[trigger] sp[k]).0 <= m < sp[k].1;
    lemma_spans(segs, 0, chunk_chars, overlap);
    let part = segs.subrange(sp[k].0, sp[k].1);
    assert(part[m - sp[k].0] == segs[m]);
    lemma_flat_words_has(part, m - sp[k].0, w);
    lemma_words_glue(part);
    assert(texts[k] == glue(part));
    assert(words(texts[k]).contains(w));
}

} // verus!
