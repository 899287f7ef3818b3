//! How words behave when texts are cut, trimmed and joined.
use vstd::prelude::*;

use crate::text::{
    all_white, dark_mask, join, lines, line_len, run_len, runs, trim, trim_end,
    trim_start, white, without_cr, words,
};

verus! {

/// All positions of a run are set, and the one behind it is not.
pub proof fn lemma_run_bounds(m: Seq<bool>)
    ensures
        run_len(m) <= m.len(),
        forall|i: int| 0 <= i < run_len(m) ==> #[trigger] m[i],
        run_len(m) < m.len() ==> !m[run_len(m) as int],
    decreases m.len(),
{
    if m.len() > 0 && m.first() {
        let d = m.drop_first();
        lemma_run_bounds(d);
        assert forall|i: int| 0 <= i < run_len(m) implies #[trigger] m[i] by {
            if i > 0 {
                assert(m[i] == d[i - 1]);
            }
        }
        if run_len(m) < m.len() {
            assert(m[run_len(m) as int] == d[run_len(d) as int]);
        }
    }
}

proof fn lemma_run_len_is(m: Seq<bool>, k: int)
    requires
        0 <= k <= m.len(),
        forall|i: int| 0 <= i < k ==> #[trigger] m[i],
        k < m.len() ==> !m[k],
    ensures
        run_len(m) == k,
{
    lemma_run_bounds(m);
    if run_len(m) < k {
        assert(m[run_len(m) as int]);
    }
    if run_len(m) > k {
        assert(m[k]);
    }
}

/// Runs do not reach over a position that is not set.
pub proof fn lemma_runs_split(s: Seq<char>, m: Seq<bool>, n: int)
    requires
        s.len() == m.len(),
        0 <= n <= m.len(),
        n == 0 || n == m.len() || !m[n - 1] || !m[n],
    ensures
        runs(s, m) == runs(s.take(n), m.take(n)) + runs(s.skip(n), m.skip(n)),
    decreases m.len(),
{
    if n == 0 {
        assert(s.skip(0) =~= s);
        assert(m.skip(0) =~= m);
        assert(m.take(0).len() == 0);
        assert(runs(s, m) =~= runs(s.take(n), m.take(n)) + runs(s, m));
    } else if m.len() == 0 {
    } else if !m.first() {
        let s1 = s.drop_first();
        let m1 = m.drop_first();
        lemma_runs_split(s1, m1, n - 1);
        assert(s.take(n).drop_first() =~= s1.take(n - 1));
        assert(m.take(n).drop_first() =~= m1.take(n - 1));
        assert(s.skip(n) =~= s1.skip(n - 1));
        assert(m.skip(n) =~= m1.skip(n - 1));
        assert(!m.take(n).first());
    } else {
        let k = run_len(m) as int;
        lemma_run_bounds(m);
        assert(m[0]);
        if k > n {
            assert(m[n - 1]);
            assert(m[n]);
        }
        assert(k >= 1) by {
            if k == 0 {
                assert(!m[0]);
            }
        }
        let s1 = s.skip(k);
        let m1 = m.skip(k);
        lemma_runs_split(s1, m1, n - k);
        let st = s.take(n);
        let mt = m.take(n);
        lemma_run_len_is(mt, k);
        assert(st.take(k) =~= s.take(k));
        assert(st.skip(k) =~= s1.take(n - k));
        assert(mt.skip(k) =~= m1.take(n - k));
        assert(s.skip(n) =~= s1.skip(n - k));
        assert(m.skip(n) =~= m1.skip(n - k));
        let a = runs(s1.take(n - k), m1.take(n - k));
        let b = runs(s1.skip(n - k), m1.skip(n - k));
        assert(mt.first());
        assert(runs(st, mt) == seq![s.take(k)] + a);
        assert(runs(s, m) == seq![s.take(k)] + (a + b));
        assert(seq![s.take(k)] + (a + b) =~= seq![s.take(k)] + a + b);
    }
}

/// A cut next to whitespace splits no word.
pub proof fn lemma_words_split(a: Seq<char>, b: Seq<char>)
    requires
        a.len() == 0 || b.len() == 0 || white(a.last()) || white(b.first()),
    ensures
        words(a + b) == words(a) + words(b),
{
    let s = a + b;
    let m = dark_mask(s);
    let n = a.len() as int;
    assert(s.take(n) =~= a);
    assert(s.skip(n) =~= b);
    assert(m.take(n) =~= dark_mask(a));
    assert(m.skip(n) =~= dark_mask(b));
    if 0 < n < s.len() {
        assert(s[n - 1] == a.last());
        assert(s[n] == b.first());
    }
    lemma_runs_split(s, m, n);
}

/// Whitespace holds no word.
pub proof fn lemma_white_has_no_words(s: Seq<char>)
    requires
        all_white(s),
    ensures
        words(s) == Seq::<Seq<char>>::empty(),
    decreases s.len(),
{
    if s.len() > 0 {
        assert(white(s[0]));
        assert(!dark_mask(s).first());
        assert(dark_mask(s).drop_first() =~= dark_mask(s.drop_first()));
        lemma_white_has_no_words(s.drop_first());
    }
}

/// One character of whitespace between two texts separates their words.
pub proof fn lemma_words_around(a: Seq<char>, c: char, b: Seq<char>)
    requires
        white(c),
    ensures
        words(a + seq![c] + b) == words(a) + words(b),
{
    lemma_words_split(a, seq![c]);
    assert((a + seq![c]).last() == c);
    lemma_words_split(a + seq![c], b);
    assert(all_white(seq![c]));
    lemma_white_has_no_words(seq![c]);
    assert(words(a) + Seq::<Seq<char>>::empty() =~= words(a));
}

proof fn lemma_words_trim_start(s: Seq<char>)
    ensures
        words(trim_start(s)) == words(s),
    decreases s.len(),
{
    if s.len() > 0 && white(s.first()) {
        lemma_words_trim_start(s.drop_first());
        assert(!dark_mask(s).first());
        assert(dark_mask(s).drop_first() =~= dark_mask(s.drop_first()));
    }
}

proof fn lemma_words_trim_end(s: Seq<char>)
    ensures
        words(trim_end(s)) == words(s),
    decreases s.len(),
{
    if s.len() > 0 && white(s.last()) {
        let d = s.drop_last();
        lemma_words_trim_end(d);
        let e: Seq<char> = Seq::empty();
        lemma_words_around(d, s.last(), e);
        assert(d + seq![s.last()] + e =~= s);
        lemma_white_has_no_words(e);
        assert(words(d) + Seq::<Seq<char>>::empty() =~= words(d));
    }
}

/// Trimming keeps the words.
pub proof fn lemma_words_trim(s: Seq<char>)
    ensures
        words(trim(s)) == words(s),
{
    lemma_words_trim_start(s);
    lemma_words_trim_end(trim_start(s));
}

/// The words of texts, one after the other.
pub open spec fn flat_words(parts: Seq<Seq<char>>) -> Seq<Seq<char>>
    decreases parts.len(),
{
    if parts.len() == 0 {
        Seq::empty()
    } else {
        flat_words(parts.drop_last()) + words(parts.last())
    }
}

/// The words of two sequences of texts are the words of the first and then those
/// of the second.
pub proof fn lemma_flat_words_add(a: Seq<Seq<char>>, b: Seq<Seq<char>>)
    ensures
        flat_words(a + b) == flat_words(a) + flat_words(b),
    decreases b.len(),
{
    if b.len() == 0 {
        assert(a + b =~= a);
        assert(flat_words(a) + Seq::<Seq<char>>::empty() =~= flat_words(a));
    } else {
        lemma_flat_words_add(a, b.drop_last());
        assert((a + b).drop_last() =~= a + b.drop_last());
        assert((a + b).last() == b.last());
        assert(flat_words(a) + flat_words(b.drop_last()) + words(b.last()) =~= flat_words(a) + (
        flat_words(b.drop_last()) + words(b.last())));
    }
}

/// The words of one text.
pub proof fn lemma_flat_words_one(t: Seq<char>)
    ensures
        flat_words(seq![t]) == words(t),
{
    reveal_with_fuel(flat_words, 2);
    let one = seq![t];
    assert(one.drop_last() =~= Seq::<Seq<char>>::empty());
    assert(one.last() == t);
    assert(Seq::<Seq<char>>::empty() + words(t) =~= words(t));
}

/// A word of one of the texts is a word of the texts.
pub proof fn lemma_flat_words_has(parts: Seq<Seq<char>>, i: int, w: Seq<char>)
    requires
        0 <= i < parts.len(),
        words(parts[i]).contains(w),
    ensures
        flat_words(parts).contains(w),
    decreases parts.len(),
{
    let d = parts.drop_last();
    let head = flat_words(d);
    let tail = words(parts.last());
    if i < d.len() {
        lemma_flat_words_has(d, i, w);
        let k = choose|k: int| 0 <= k < head.len() && head[k] == w;
        assert((head + tail)[k] == w);
    } else {
        let k = choose|k: int| 0 <= k < tail.len() && tail[k] == w;
        assert((head + tail)[head.len() + k] == w);
    }
}

/// A word of the texts is a word of one of them.
pub proof fn lemma_flat_words_from(parts: Seq<Seq<char>>, w: Seq<char>) -> (i: int)
    requires
        flat_words(parts).contains(w),
    ensures
        0 <= i < parts.len(),
        words(parts[i]).contains(w),
    decreases parts.len(),
{
    let d = parts.drop_last();
    let head = flat_words(d);
    let tail = words(parts.last());
    let k = choose|k: int| 0 <= k < flat_words(parts).len() && flat_words(parts)[k] == w;
    assert(flat_words(parts) == head + tail);
    if k < head.len() {
        assert(head[k] == w);
        lemma_flat_words_from(d, w)
    } else {
        assert(tail[k - head.len()] == w);
        parts.len() - 1
    }
}

/// Joining with line feeds keeps the words.
pub proof fn lemma_words_join(parts: Seq<Seq<char>>)
    ensures
        words(join(parts, "\n"@)) == flat_words(parts),
    decreases parts.len(),
{
    reveal_strlit("\n");
    assert("\n"@ =~= seq!['\n']);
    if parts.len() == 0 {
        lemma_white_has_no_words(Seq::empty());
    } else if parts.len() == 1 {
        lemma_flat_words_one(parts[0]);
        assert(parts =~= seq![parts[0]]);
    } else {
        lemma_words_join(parts.drop_last());
        lemma_words_around(join(parts.drop_last(), "\n"@), '\n', parts.last());
    }
}

/// The lines of a text hold its words.
pub proof fn lemma_words_lines(s: Seq<char>)
    ensures
        flat_words(lines(s)) == words(s),
    decreases s.len(),
{
    if s.len() == 0 {
        lemma_white_has_no_words(s);
    } else {
        let n = line_len(s) as int;
        lemma_line_len(s);
        if n >= s.len() {
            lemma_flat_words_one(s);
        } else {
            let line = s.take(n);
            let rest = s.skip(n + 1);
            lemma_words_lines(rest);
            lemma_flat_words_one(without_cr(line));
            lemma_flat_words_add(seq![without_cr(line)], lines(rest));
            if line.len() > 0 && line.last() == '\r' {
                let e: Seq<char> = Seq::empty();
                lemma_words_around(line.drop_last(), '\r', e);
                assert(line.drop_last() + seq!['\r'] + e =~= line);
                lemma_white_has_no_words(e);
                assert(words(without_cr(line)) + Seq::<Seq<char>>::empty() =~= words(
                    without_cr(line),
                ));
            }
            lemma_words_around(line, '\n', rest);
            assert(line + seq!['\n'] + rest =~= s);
        }
    }
}

/// A line ends before a line feed or with the text.
pub proof fn lemma_line_len(s: Seq<char>)
    ensures
        line_len(s) <= s.len(),
        line_len(s) < s.len() ==> s[line_len(s) as int] == '\n',
    decreases s.len(),
{
    if s.len() > 0 && s.first() != '\n' {
        lemma_line_len(s.drop_first());
    }
}

/// A stretch that is set lies in a run at least as long.
proof fn lemma_stretch_in_run(s: Seq<char>, m: Seq<bool>, a: int, b: int) -> (i: int)
    requires
        s.len() == m.len(),
        0 <= a < b <= m.len(),
        forall|k: int| a <= k < b ==> #[trigger] m[k],
    ensures
        0 <= i < runs(s, m).len(),
        runs(s, m)[i].len() >= b - a,
    decreases m.len(),
{
    if !m.first() {
        if a == 0 {
            assert(m[0]);
        }
        let m1 = m.drop_first();
        assert forall|k: int| a - 1 <= k < b - 1 implies #[trigger] m1[k] by {
            assert(m[k + 1]);
        }
        lemma_stretch_in_run(s.drop_first(), m1, a - 1, b - 1)
    } else {
        let k = run_len(m) as int;
        lemma_run_bounds(m);
        assert(k >= 1) by {
            if k == 0 {
                assert(!m[0]);
            }
        }
        let tail = runs(s.skip(k), m.skip(k));
        assert(runs(s, m) == seq![s.take(k)] + tail);
        if a < k {
            if b > k {
                assert(m[k]);
            }
            assert(runs(s, m)[0] == s.take(k));
            0
        } else {
            if a == k && k < m.len() {
                assert(m[k]);
            }
            let m1 = m.skip(k);
            assert forall|j: int| a - k <= j < b - k implies #[trigger] m1[j] by {
                assert(m[j + k]);
            }
            let i = lemma_stretch_in_run(s.skip(k), m1, a - k, b - k);
            assert(runs(s, m)[i + 1] == tail[i]);
            i + 1
        }
    }
}

/// A stretch without whitespace lies in a word at least as long.
pub proof fn lemma_stretch_in_word(s: Seq<char>, a: int, b: int) -> (i: int)
    requires
        0 <= a < b <= s.len(),
        forall|k: int| a <= k < b ==> !white(#[trigger] s[k]),
    ensures
        0 <= i < words(s).len(),
        words(s)[i].len() >= b - a,
{
    let m = dark_mask(s);
    assert forall|k: int| a <= k < b implies #[trigger] m[k] by {
        assert(!white(s[k]));
    }
    lemma_stretch_in_run(s, m, a, b)
}

/// A text that holds more than whitespace has a word.
pub proof fn lemma_dark_has_words(s: Seq<char>)
    ensures
        words(s).len() == 0 <==> all_white(s),
{
    if all_white(s) {
        lemma_white_has_no_words(s);
    } else {
        let k = choose|k: int| 0 <= k < s.len() && !white(#[trigger] s[k]);
        let i = lemma_stretch_in_word(s, k, k + 1);
    }
}

} // verus!
