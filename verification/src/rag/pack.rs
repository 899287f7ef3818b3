//! Packing segments into overlapping chunks.
use vstd::prelude::*;

use crate::rag::chunk::clen;

verus! {

// ── What a chunk is ──────────────────────────────────────────────────────────

/// Segments put one below the other. One that follows nothing gets no line feed
/// before it.
pub open spec fn glue(segs: Seq<Seq<char>>) -> Seq<char>
    decreases segs.len(),
{
    if segs.len() == 0 {
        Seq::empty()
    } else {
        let above = glue(segs.drop_last());
        if above.len() == 0 {
            segs.last()
        } else {
            above + seq!['\n'] + segs.last()
        }
    }
}

/// Where a chunk ends that starts with segment `i` and holds the segments before
/// `j`: it takes segments as long as the whole fits `limit`, and at least one.
pub open spec fn fill(segs: Seq<Seq<char>>, i: int, j: int, limit: int) -> int
    decreases segs.len() - j,
{
    if j >= segs.len() {
        j
    } else {
        let held = glue(segs.subrange(i, j)).len();
        if held > 0 && held + 1 + segs[j].len() > limit {
            j
        } else {
            fill(segs, i, j + 1, limit)
        }
    }
}

/// Where the chunk after one that starts with segment `i` starts, if segments
/// from `start` on are carried over with `used` characters: as many of the last
/// segments as fit `overlap`, each counted with its line feed, but never the
/// first segment of the chunk.
pub open spec fn carry(segs: Seq<Seq<char>>, i: int, start: int, used: int, overlap: int) -> int
    decreases start,
{
    if start <= i + 1 || start <= 0 || used + segs[start - 1].len() + 1 > overlap {
        start
    } else {
        carry(segs, i, start - 1, used + segs[start - 1].len() + 1, overlap)
    }
}

/// A chunk that starts with segment `i` ends behind it.
pub proof fn lemma_fill(segs: Seq<Seq<char>>, i: int, j: int, limit: int)
    requires
        0 <= i <= j <= segs.len(),
    ensures
        j <= fill(segs, i, j, limit) <= segs.len(),
        i == j && i < segs.len() ==> fill(segs, i, j, limit) > i,
    decreases segs.len() - j,
{
    if j < segs.len() {
        if i == j {
            assert(segs.subrange(i, j) =~= Seq::<Seq<char>>::empty());
        }
        lemma_fill(segs, i, j + 1, limit);
    }
}

/// The next chunk starts behind the first segment of a chunk, and not behind its
/// end.
pub proof fn lemma_carry(segs: Seq<Seq<char>>, i: int, start: int, used: int, overlap: int)
    requires
        0 <= i < start,
    ensures
        i < carry(segs, i, start, used, overlap) <= start,
    decreases start,
{
    if !(start <= i + 1 || start <= 0 || used + segs[start - 1].len() + 1 > overlap) {
        lemma_carry(segs, i, start - 1, used + segs[start - 1].len() + 1, overlap);
    }
}

/// The chunks from segment `i` on, each as the segments that it takes.
pub open spec fn spans(segs: Seq<Seq<char>>, i: int, limit: int, overlap: int) -> Seq<(int, int)>
    decreases segs.len() - i,
{
    if i < 0 || i >= segs.len() {
        Seq::empty()
    } else {
        proof {
            lemma_fill(segs, i, i, limit);
            lemma_carry(segs, i, fill(segs, i, i, limit), 0, overlap);
        }
        let j = fill(segs, i, i, limit);
        if j >= segs.len() {
            seq![(i, j)]
        } else {
            seq![(i, j)] + spans(segs, carry(segs, i, j, 0, overlap), limit, overlap)
        }
    }
}

/// The text of the segments of a span.
pub open spec fn span_text(segs: Seq<Seq<char>>, span: (int, int)) -> Seq<char> {
    glue(segs.subrange(span.0, span.1))
}

/// The chunks that segments are packed into.
pub open spec fn packed(segs: Seq<Seq<char>>, limit: int, overlap: int) -> Seq<Seq<char>> {
    spans(segs, 0, limit, overlap).map_values(|span: (int, int)| span_text(segs, span))
}

// ── Packing ──────────────────────────────────────────────────────────────────

/// Packs segments into chunks of at most `chunk_chars` characters, carrying up
/// to `overlap_chars` characters of whole segments into the next chunk.
pub fn pack(segs: &[String], chunk_chars: usize, overlap_chars: usize) -> (r: Vec<String>)
    ensures
        r.deep_view() == packed(segs.deep_view(), chunk_chars as int, overlap_chars as int),
{
    let ghost ss = segs.deep_view();
    let ghost limit = chunk_chars as int;
    let ghost overlap = overlap_chars as int;
    let ghost text = |span: (int, int)| span_text(ss, span);
    let mut r: Vec<String> = Vec::new();
    let mut i: usize = 0;
    proof {
        assert(r.deep_view() =~= Seq::<Seq<char>>::empty());
        assert(r.deep_view() + spans(ss, 0, limit, overlap).map_values(text) =~= packed(
            ss,
            limit,
            overlap,
        ));
    }
    while i < segs.len()
        invariant
            i <= segs@.len(),
            ss == segs.deep_view(),
            ss.len() == segs@.len(),
            limit == chunk_chars,
            overlap == overlap_chars,
            text == (|span: (int, int)| span_text(ss, span)),
            packed(ss, limit, overlap) == r.deep_view() + spans(
                ss,
                i as int,
                limit,
                overlap,
            ).map_values(text),
        decreases segs@.len() - i,
    {
        let mut cur = String::new();
        let mut held: usize = 0;
        let mut j: usize = i;
        let mut full: bool = false;
        proof {
            assert(ss.subrange(i as int, i as int) =~= Seq::<Seq<char>>::empty());
        }
        while j < segs.len() && !full
            invariant
                i <= j <= segs@.len(),
                ss == segs.deep_view(),
                ss.len() == segs@.len(),
                limit == chunk_chars,
                cur@ == glue(ss.subrange(i as int, j as int)),
                held == cur@.len(),
                !full ==> fill(ss, i as int, i as int, limit) == fill(
                    ss,
                    i as int,
                    j as int,
                    limit,
                ),
                full ==> fill(ss, i as int, i as int, limit) == j,
            decreases segs@.len() - j, (if full { 0int } else { 1int }),
        {
            let add = clen(segs[j].as_str());
            proof {
                assert(ss[j as int] == segs@[j as int]@);
            }
            if held > 0 && (held > chunk_chars || chunk_chars - held <= add) {
                full = true;
            } else {
                if held > 0 {
                    cur.push('\n');
                    held = held + 1 + add;
                } else {
                    held = add;
                }
                let ghost above = glue(ss.subrange(i as int, j as int));
                cur.push_str(segs[j].as_str());
                proof {
                    let next = ss.subrange(i as int, j + 1);
                    assert(next.drop_last() =~= ss.subrange(i as int, j as int));
                    assert(next.last() == ss[j as int]);
                    if above.len() == 0 {
                        assert(cur@ =~= ss[j as int]);
                    } else {
                        assert(cur@ =~= above + seq!['\n'] + ss[j as int]);
                    }
                }
                j = j + 1;
            }
        }
        proof {
            assert(fill(ss, i as int, i as int, limit) == j);
            lemma_fill(ss, i as int, i as int, limit);
        }
        let ghost before = r.deep_view();
        let ghost here = (i as int, j as int);
        r.push(cur);
        proof {
            assert(r.deep_view() =~= before.push(cur@));
            assert(cur@ == text(here));
        }
        if j >= segs.len() {
            proof {
                assert(spans(ss, i as int, limit, overlap) == seq![here]);
                assert(seq![here].map_values(text) =~= seq![cur@]);
                assert(packed(ss, limit, overlap) =~= r.deep_view());
            }
            return r;
        }
        let mut used: usize = 0;
        let mut start: usize = j;
        let mut stop: bool = false;
        while start > i + 1 && !stop
            invariant
                i < start <= j,
                j <= segs@.len(),
                ss == segs.deep_view(),
                ss.len() == segs@.len(),
                overlap == overlap_chars,
                used <= overlap_chars,
                !stop ==> carry(ss, i as int, j as int, 0, overlap) == carry(
                    ss,
                    i as int,
                    start as int,
                    used as int,
                    overlap,
                ),
                stop ==> carry(ss, i as int, j as int, 0, overlap) == start,
            decreases start, (if stop { 0int } else { 1int }),
        {
            let len = clen(segs[start - 1].as_str());
            proof {
                assert(ss[start - 1] == segs@[start - 1]@);
            }
            if overlap_chars - used <= len {
                stop = true;
            } else {
                used = used + (len + 1);
                start = start - 1;
            }
        }
        proof {
            let next = carry(ss, i as int, j as int, 0, overlap);
            assert(next == start);
            let rest = spans(ss, next, limit, overlap);
            assert(spans(ss, i as int, limit, overlap) == seq![here] + rest);
            assert((seq![here] + rest).map_values(text) =~= seq![cur@] + rest.map_values(text));
            assert(before + (seq![cur@] + rest.map_values(text)) =~= before.push(cur@)
                + rest.map_values(text));
        }
        i = start;
    }
    proof {
        assert(spans(ss, i as int, limit, overlap).map_values(text) =~= Seq::<Seq<char>>::empty());
        assert(packed(ss, limit, overlap) =~= r.deep_view());
    }
    r
}

} // verus!
