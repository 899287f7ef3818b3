//! Where a document is split, and how the parts are put together to chunks.
use vstd::prelude::*;

use crate::rag::chunk::{
    chunk_texts, cut, dark_lines, document_chunks, fit_paragraph, fit_paragraphs, fit_sentences,
    hard_pieces, last_white_end, lemma_last_white_end, paragraphs, paragraphs_of, piece, pieces,
    segments, sentence_len, sentences, MIN_CHUNK_CHARS,
};
use crate::rag::chunk_laws::chunks_fit;
use crate::rag::pack::{carry, fill, glue, lemma_carry, lemma_fill, packed, spans};
use crate::rag::types::RagConfigView;
use crate::text::{all_white, join, lemma_trim_empty, lines, lowered, trim, white, words};
use crate::text_laws::lemma_flatten_push;

verus! {

// ── Paragraphs ───────────────────────────────────────────────────────────────

proof fn lemma_dark_lines_is(ls: Seq<Seq<char>>, n: int)
    requires
        0 <= n <= ls.len(),
        forall|i: int| 0 <= i < n ==> !all_white(#[trigger] ls[i]),
        n < ls.len() ==> all_white(ls[n]),
    ensures
        dark_lines(ls) == n,
    decreases n,
{
    if ls.len() > 0 {
        lemma_trim_empty(ls[0]);
    }
    if n > 0 {
        assert(!all_white(ls[0]));
        lemma_dark_lines_is(ls.drop_first(), n - 1);
    }
}

/// A paragraph takes the lines up to the next line of whitespace, one below the
/// other and trimmed; lines of whitespace between paragraphs are passed over.
pub proof fn paragraphs_end_at_blank_lines(ls: Seq<Seq<char>>, n: int)
    requires
        0 < n <= ls.len(),
        forall|i: int| 0 <= i < n ==> !all_white(#[trigger] ls[i]),
        n < ls.len() ==> all_white(ls[n]),
    ensures
        paragraphs_of(ls) == seq![trim(join(ls.take(n), "\n"@))] + paragraphs_of(ls.skip(n)),
{
    lemma_dark_lines_is(ls, n);
    assert(!all_white(ls[0]));
    lemma_trim_empty(ls[0]);
}

/// Lines of whitespace make no paragraph.
pub proof fn blank_lines_are_passed_over(ls: Seq<Seq<char>>)
    ensures
        ls.len() == 0 ==> paragraphs_of(ls).len() == 0,
        ls.len() > 0 && all_white(ls[0]) ==> paragraphs_of(ls) == paragraphs_of(ls.drop_first()),
{
    if ls.len() > 0 {
        lemma_trim_empty(ls[0]);
    }
}

/// The paragraphs of a text are those of its lines.
pub proof fn paragraphs_are_made_of_lines(s: Seq<char>)
    ensures
        paragraphs(s) == paragraphs_of(lines(s)),
{
}

// ── Sentences ────────────────────────────────────────────────────────────────

/// A sentence can end before position `n`: a full stop, an exclamation mark or a
/// question mark stands there, and whitespace behind it.
pub open spec fn ends_sentence(s: Seq<char>, n: int) -> bool {
    0 < n < s.len() && (s[n - 1] == '.' || s[n - 1] == '!' || s[n - 1] == '?') && white(s[n])
}

proof fn lemma_sentence_len_is(s: Seq<char>, n: int)
    requires
        0 < n <= s.len(),
        n < s.len() ==> ends_sentence(s, n),
        forall|k: int| 0 < k < n ==> !#[trigger] ends_sentence(s, k),
    ensures
        sentence_len(s) == n,
    decreases n,
{
    if n > 1 {
        let d = s.drop_first();
        assert(!ends_sentence(s, 1));
        assert forall|k: int| 0 < k < n - 1 implies !#[trigger] ends_sentence(d, k) by {
            assert(!ends_sentence(s, k + 1));
        }
        lemma_sentence_len_is(d, n - 1);
    } else if s.len() == 1 {
        assert(sentence_len(s.drop_first()) == 0);
    }
}

/// A paragraph is split behind each end of a sentence and nowhere else; the
/// sentences are trimmed.
pub proof fn sentences_end_before_whitespace(s: Seq<char>, n: int)
    requires
        0 < n <= s.len(),
        n < s.len() ==> ends_sentence(s, n),
        forall|k: int| 0 < k < n ==> !#[trigger] ends_sentence(s, k),
    ensures
        all_white(s.take(n)) ==> sentences(s) == sentences(s.skip(n)),
        !all_white(s.take(n)) ==> sentences(s) == seq![trim(s.take(n))] + sentences(s.skip(n)),
        sentences(Seq::empty()).len() == 0,
{
    lemma_sentence_len_is(s, n);
    lemma_trim_empty(s.take(n));
    let rest = sentences(s.skip(n));
    assert(Seq::<Seq<char>>::empty() + rest =~= rest);
}

// ── Pieces ───────────────────────────────────────────────────────────────────

/// The first piece of a text that is too long can end before position `n`: behind
/// the last whitespace among the first `max` characters, or behind all of them
/// where there is no whitespace among them.
pub open spec fn ends_piece(s: Seq<char>, max: int, n: int) -> bool {
    &&& 0 < n <= max
    &&& forall|k: int| n <= k < max ==> !white(#[trigger] s[k])
    &&& white(s[n - 1]) || (n == max && forall|k: int| 0 <= k < max ==> !white(#[trigger] s[k]))
}

/// A text that is too long is split at the last whitespace in reach, and inside a
/// word only where the word alone is too long; what is left is split likewise,
/// and every piece is trimmed.
pub proof fn pieces_end_at_whitespace(s: Seq<char>, max: int, n: int)
    requires
        0 < max < s.len(),
        ends_piece(s, max, n),
    ensures
        hard_pieces(s, max) == pieces(s, max),
        all_white(s.take(n)) ==> pieces(s, max) == pieces(s.skip(n), max),
        !all_white(s.take(n)) ==> pieces(s, max) == seq![trim(s.take(n))] + pieces(
            s.skip(n),
            max,
        ),
{
    lemma_last_white_end(s, max);
    let e = last_white_end(s, max);
    if white(s[n - 1]) {
        if e < n {
            assert(!white(s[n - 1]));
        }
        if e > n {
            assert(!white(s[e - 1]));
        }
    } else if e > 0 {
        assert(!white(s[e - 1]));
    }
    assert(cut(s, max) == n);
    lemma_trim_empty(s.take(n));
    let rest = pieces(s.skip(n), max);
    assert(Seq::<Seq<char>>::empty() + rest =~= rest);
}

/// A text that fits is one piece, as it is; what is left of a longer one when it
/// fits is one piece, trimmed, unless it is whitespace.
pub proof fn what_fits_is_one_piece(s: Seq<char>, max: int)
    requires
        max > 0,
        s.len() <= max,
    ensures
        hard_pieces(s, max) == seq![s],
        all_white(s) ==> pieces(s, max).len() == 0,
        !all_white(s) ==> pieces(s, max) == seq![trim(s)],
{
    lemma_trim_empty(s);
    if s.len() > 0 {
        assert(s.take(s.len() as int) =~= s);
        assert(s.skip(s.len() as int) =~= Seq::<char>::empty());
        assert(pieces(s.skip(s.len() as int), max) =~= Seq::<Seq<char>>::empty());
        assert(piece(s) + Seq::<Seq<char>>::empty() =~= piece(s));
    } else {
        assert(all_white(s));
    }
}

// ── Segments ─────────────────────────────────────────────────────────────────

proof fn lemma_fit_sentences(ss: Seq<Seq<char>>, limit: int)
    ensures
        fit_sentences(ss, limit) == ss.map_values(
            |t: Seq<char>| hard_pieces(t, limit),
        ).flatten(),
    decreases ss.len(),
{
    let f = |t: Seq<char>| hard_pieces(t, limit);
    if ss.len() == 0 {
        assert(ss.map_values(f).flatten() =~= Seq::<Seq<char>>::empty());
    } else {
        let d = ss.drop_last();
        lemma_fit_sentences(d, limit);
        assert(ss.map_values(f) =~= d.map_values(f).push(f(ss.last())));
        lemma_flatten_push(d.map_values(f), f(ss.last()));
    }
}

proof fn lemma_fit_paragraphs(ps: Seq<Seq<char>>, limit: int)
    ensures
        fit_paragraphs(ps, limit) == ps.map_values(
            |p: Seq<char>|
                if p.len() <= limit {
                    seq![p]
                } else {
                    sentences(p).map_values(|t: Seq<char>| hard_pieces(t, limit)).flatten()
                },
        ).flatten(),
    decreases ps.len(),
{
    let f = |p: Seq<char>|
        if p.len() <= limit {
            seq![p]
        } else {
            sentences(p).map_values(|t: Seq<char>| hard_pieces(t, limit)).flatten()
        };
    if ps.len() == 0 {
        assert(ps.map_values(f).flatten() =~= Seq::<Seq<char>>::empty());
    } else {
        let d = ps.drop_last();
        lemma_fit_paragraphs(d, limit);
        lemma_fit_sentences(sentences(ps.last()), limit);
        assert(fit_paragraph(ps.last(), limit) == f(ps.last()));
        assert(ps.map_values(f) =~= d.map_values(f).push(f(ps.last())));
        lemma_flatten_push(d.map_values(f), f(ps.last()));
    }
}

/// The segments of a text are its paragraphs in order: each as it is if it fits,
/// else as its sentences, and each of those as it is if it fits, else in pieces.
pub proof fn segments_follow_the_paragraphs(s: Seq<char>, limit: int)
    ensures
        segments(s, limit) == paragraphs(s).map_values(
            |p: Seq<char>|
                if p.len() <= limit {
                    seq![p]
                } else {
                    sentences(p).map_values(|t: Seq<char>| hard_pieces(t, limit)).flatten()
                },
        ).flatten(),
{
    lemma_fit_paragraphs(paragraphs(s), limit);
}

// ── Packing ──────────────────────────────────────────────────────────────────

/// The characters that segments `a..b` take, each with a line feed.
pub open spec fn room(segs: Seq<Seq<char>>, a: int, b: int) -> int {
    segs.subrange(a, b).flatten().len() + (b - a)
}

proof fn lemma_room(segs: Seq<Seq<char>>, a: int, b: int)
    requires
        0 <= a < b <= segs.len(),
    ensures
        room(segs, a, b) == segs[a].len() + 1 + room(segs, a + 1, b),
        room(segs, b, b) == 0,
{
    let t = segs.subrange(a, b);
    assert(t.first() == segs[a]);
    assert(t.drop_first() =~= segs.subrange(a + 1, b));
    assert(segs.subrange(b, b) =~= Seq::<Seq<char>>::empty());
    assert(Seq::<Seq<char>>::empty().flatten() =~= Seq::<char>::empty());
}

proof fn lemma_carry_is(segs: Seq<Seq<char>>, i: int, start: int, end: int, overlap: int)
    requires
        0 <= i < start <= end <= segs.len(),
        room(segs, start, end) <= overlap,
    ensures
        ({
            let a = carry(segs, i, start, room(segs, start, end), overlap);
            &&& i < a <= start
            &&& room(segs, a, end) <= overlap
            &&& a == i + 1 || room(segs, a - 1, end) > overlap
        }),
    decreases start,
{
    let used = room(segs, start, end);
    lemma_room(segs, start - 1, end);
    if !(start <= i + 1 || start <= 0 || used + segs[start - 1].len() + 1 > overlap) {
        lemma_carry_is(segs, i, start - 1, end, overlap);
    }
}

/// Segments `i..j` are not full: `limit` leaves room for one more.
pub open spec fn takes_more(segs: Seq<Seq<char>>, i: int, j: int, limit: int) -> bool {
    let held = glue(segs.subrange(i, j)).len();
    held == 0 || held + 1 + segs[j].len() <= limit
}

proof fn lemma_fill_is(segs: Seq<Seq<char>>, i: int, j: int, limit: int)
    requires
        0 <= i <= j <= segs.len(),
        forall|k: int| i <= k < j ==> #[trigger] takes_more(segs, i, k, limit),
    ensures
        ({
            let e = fill(segs, i, j, limit);
            &&& j <= e <= segs.len()
            &&& forall|k: int| i <= k < e ==> #[trigger] takes_more(segs, i, k, limit)
            &&& e == segs.len() || !takes_more(segs, i, e, limit)
        }),
    decreases segs.len() - j,
{
    if j < segs.len() {
        let held = glue(segs.subrange(i, j)).len();
        if !(held > 0 && held + 1 + segs[j].len() > limit) {
            assert(takes_more(segs, i, j, limit));
            lemma_fill_is(segs, i, j + 1, limit);
        }
    }
}

/// A chunk takes segments as long as it may, and no longer.
pub open spec fn well_filled(segs: Seq<Seq<char>>, span: (int, int), limit: int) -> bool {
    &&& forall|k: int| span.0 <= k < span.1 ==> #[trigger] takes_more(segs, span.0, k, limit)
    &&& span.1 == segs.len() || !takes_more(segs, span.0, span.1, limit)
}

/// A chunk starts with as many of the last segments of the one before as the
/// overlap allows, but never with its first one.
pub open spec fn well_carried(
    segs: Seq<Seq<char>>,
    before: (int, int),
    start: int,
    overlap: int,
) -> bool {
    &&& before.0 < start <= before.1
    &&& room(segs, start, before.1) <= overlap
    &&& start == before.0 + 1 || room(segs, start - 1, before.1) > overlap
}

proof fn lemma_spans_are(segs: Seq<Seq<char>>, i: int, limit: int, overlap: int)
    requires
        0 <= i < segs.len(),
        overlap >= 0,
    ensures
        ({
            let sp = spans(segs, i, limit, overlap);
            &&& sp.len() > 0
            &&& sp[0].0 == i
            &&& forall|k: int|
                0 <= k < sp.len() ==> (#[trigger] sp[k]).0 < sp[k].1 && well_filled(
                    segs,
                    sp[k],
                    limit,
                )
            &&& forall|k: int|
                0 < k < sp.len() ==> well_carried(
                    segs,
                    sp[k - 1],
                    (#[trigger] sp[k]).0,
                    overlap,
                )
            &&& forall|k: int|
                0 <= k < sp.len() ==> ((#[trigger] sp[k]).1 == segs.len() <==> k == sp.len() - 1)
        }),
    decreases segs.len() - i,
{
    lemma_fill(segs, i, i, limit);
    lemma_fill_is(segs, i, i, limit);
    let j = fill(segs, i, i, limit);
    let sp = spans(segs, i, limit, overlap);
    if j < segs.len() {
        lemma_carry(segs, i, j, 0, overlap);
        lemma_room(segs, i, j);
        lemma_carry_is(segs, i, j, j, overlap);
        let next = carry(segs, i, j, 0, overlap);
        lemma_spans_are(segs, next, limit, overlap);
        let rest = spans(segs, next, limit, overlap);
        assert(sp == seq![(i, j)] + rest);
        assert forall|k: int| 0 <= k < sp.len() implies (#[trigger] sp[k]).0 < sp[k].1
            && well_filled(segs, sp[k], limit) && (sp[k].1 == segs.len() <==> k == sp.len() - 1) by {
            if k > 0 {
                assert(sp[k] == rest[k - 1]);
            }
        }
        assert forall|k: int| 0 < k < sp.len() implies well_carried(
            segs,
            sp[k - 1],
            (#[trigger] sp[k]).0,
            overlap,
        ) by {
            assert(sp[k] == rest[k - 1]);
            if k > 1 {
                assert(sp[k - 1] == rest[k - 2]);
            }
        }
    } else {
        assert(sp == seq![(i, j)]);
    }
}

/// Chunks are as long as they may be, and so is their overlap: the first one
/// starts with the first segment; each takes segments until the next one would not
/// fit; each starts with as many of the last segments of the one before as the
/// overlap allows, but never with its first one; and only the last one takes the
/// last segment.
pub proof fn chunks_and_overlaps_are_as_long_as_they_may_be(
    segs: Seq<Seq<char>>,
    limit: int,
    overlap: int,
)
    requires
        segs.len() > 0,
        overlap >= 0,
    ensures
        ({
            let sp = spans(segs, 0, limit, overlap);
            &&& sp.len() > 0
            &&& sp[0].0 == 0
            &&& forall|k: int|
                0 <= k < sp.len() ==> (#[trigger] sp[k]).0 < sp[k].1 && well_filled(
                    segs,
                    sp[k],
                    limit,
                )
            &&& forall|k: int|
                0 < k < sp.len() ==> well_carried(
                    segs,
                    sp[k - 1],
                    (#[trigger] sp[k]).0,
                    overlap,
                )
            &&& forall|k: int|
                0 <= k < sp.len() ==> ((#[trigger] sp[k]).1 == segs.len() <==> k == sp.len() - 1)
        }),
{
    lemma_spans_are(segs, 0, limit, overlap);
}

proof fn lemma_glue_join(segs: Seq<Seq<char>>)
    requires
        forall|i: int| 0 <= i < segs.len() ==> (#[trigger] segs[i]).len() > 0,
    ensures
        glue(segs) == join(segs, "\n"@),
        segs.len() > 0 ==> glue(segs).len() > 0,
    decreases segs.len(),
{
    reveal_strlit("\n");
    if segs.len() > 0 {
        let d = segs.drop_last();
        assert forall|i: int| 0 <= i < d.len() implies (#[trigger] d[i]).len() > 0 by {
            assert(segs[i].len() > 0);
        }
        lemma_glue_join(d);
        assert(segs[segs.len() - 1].len() > 0);
        if d.len() == 0 {
            assert(glue(d).len() == 0);
        } else {
            assert(seq!['\n'] =~= "\n"@);
        }
    }
}

/// The text of a chunk is the text of its segments, one below the other.
pub proof fn chunks_stack_their_segments(segs: Seq<Seq<char>>, limit: int, overlap: int, k: int)
    requires
        forall|i: int| 0 <= i < segs.len() ==> (#[trigger] segs[i]).len() > 0,
        overlap >= 0,
        0 <= k < packed(segs, limit, overlap).len(),
    ensures
        packed(segs, limit, overlap).len() == spans(segs, 0, limit, overlap).len(),
        packed(segs, limit, overlap)[k] == join(
            segs.subrange(
                spans(segs, 0, limit, overlap)[k].0,
                spans(segs, 0, limit, overlap)[k].1,
            ),
            "\n"@,
        ),
{
    let sp = spans(segs, 0, limit, overlap);
    assert(segs.len() > 0);
    lemma_spans_are(segs, 0, limit, overlap);
    lemma_span_bounds(segs, limit, overlap, k);
    let part = segs.subrange(sp[k].0, sp[k].1);
    assert forall|i: int| 0 <= i < part.len() implies (#[trigger] part[i]).len() > 0 by {
        assert(segs[sp[k].0 + i].len() > 0);
    }
    lemma_glue_join(part);
}

proof fn lemma_span_bounds(segs: Seq<Seq<char>>, limit: int, overlap: int, k: int)
    requires
        segs.len() > 0,
        overlap >= 0,
        0 <= k < spans(segs, 0, limit, overlap).len(),
    ensures
        0 <= spans(segs, 0, limit, overlap)[k].0 <= spans(segs, 0, limit, overlap)[k].1
            <= segs.len(),
{
    crate::rag::chunk_laws::chunks_cover_and_overlap(segs, limit, overlap);
    let sp = spans(segs, 0, limit, overlap);
    assert(sp[k].0 < sp[k].1);
}

// ── Documents ────────────────────────────────────────────────────────────────

/// A document keeps its chunks of at least 24 characters, in order; where it has
/// none of them it keeps all chunks.
pub proof fn only_short_chunks_are_dropped(content: Seq<char>, chunk_chars: int, overlap: int)
    requires
        chunk_chars > 0,
        overlap >= 0,
    ensures
        ({
            let all = packed(segments(content, chunk_chars), chunk_chars, overlap);
            chunk_texts(content, chunk_chars, overlap) == if (exists|i: int|
                0 <= i < all.len() && (#[trigger] all[i]).len() >= 24) {
                all.filter(|t: Seq<char>| t.len() >= 24)
            } else {
                all
            }
        }),
{
    let all = packed(segments(content, chunk_chars), chunk_chars, overlap);
    chunks_fit(content, chunk_chars, overlap);
    let p = |t: Seq<char>| t.len() >= 24;
    let q = |t: Seq<char>| t.len() >= MIN_CHUNK_CHARS;
    assert(p =~= q);
    if (exists|i: int| 0 <= i < all.len() && (#[trigger] all[i]).len() >= 24) {
        let i = choose|i: int| 0 <= i < all.len() && (#[trigger] all[i]).len() >= 24;
        all.lemma_filter_contains(p, i);
    } else if all.filter(p).len() > 0 {
        let t = all.filter(p)[0];
        assert(all.filter(p).contains(t));
        all.lemma_filter_contains_rev(p, t);
        all.lemma_filter_pred(p, 0);
        let k = choose|k: int| 0 <= k < all.len() && all[k] == t;
        assert(all[k].len() >= 24);
    }
}

/// The chunks of a document hold its texts in order, and for each text its words
/// in lower case with single spaces between them.
pub proof fn chunks_hold_the_texts(
    cfg: RagConfigView,
    source: Seq<char>,
    content: Seq<char>,
    now: i64,
)
    ensures
        document_chunks(cfg, source, content, now).len() == chunk_texts(
            content,
            cfg.chunk_chars as int,
            cfg.overlap_chars as int,
        ).len(),
        forall|i: int|
            0 <= i < document_chunks(cfg, source, content, now).len() ==> {
                let c = #[trigger] document_chunks(cfg, source, content, now)[i];
                &&& c.text == chunk_texts(
                    content,
                    cfg.chunk_chars as int,
                    cfg.overlap_chars as int,
                )[i]
                &&& c.normalized == lowered(join(words(c.text), " "@))
            },
{
}

} // verus!
