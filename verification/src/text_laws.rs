//! What holds of whitespace, case, trimming, words, joining and lines, character
//! by character.
use vstd::prelude::*;
use vstd::utf8::is_ascii_chars;

use crate::text::{
    all_white, alnum, alnum_mask, alphanumeric, dark_mask, join, lemma_trim_end, lemma_trim_start,
    line_len, lines, lowercase, lowered, run_len, runs, trim, trim_end, trim_start, white,
    without_cr, words,
};

verus! {

// ── Characters ───────────────────────────────────────────────────────────────

/// Whitespace is what Unicode calls `White_Space`: these code points and no
/// others.
pub proof fn whitespace_is_that_of_unicode(c: char)
    ensures
        white(c) <==> {
            let n = c as u32;
            ||| 9 <= n && n <= 13
            ||| n == 0x20
            ||| n == 0x85
            ||| n == 0xa0
            ||| n == 0x1680
            ||| 0x2000 <= n && n <= 0x200a
            ||| 0x2028 <= n && n <= 0x2029
            ||| n == 0x202f
            ||| n == 0x205f
            ||| n == 0x3000
        },
{
}

/// Of the ASCII characters exactly the letters and the digits are letters or
/// digits, wherever they stand.
pub proof fn ascii_letters_and_digits(s: Seq<char>, i: int)
    requires
        0 <= i < s.len(),
    ensures
        alnum_mask(s).len() == s.len(),
        (s[i] as u32) < 128 ==> alnum_mask(s)[i] == {
            let n = s[i] as u32;
            0x30 <= n <= 0x39 || 0x41 <= n <= 0x5a || 0x61 <= n <= 0x7a
        },
        (s[i] as u32) >= 128 ==> alnum_mask(s)[i] == alphanumeric(s[i]),
{
    lemma_ascii(s[i]);
}

proof fn lemma_ascii(c: char)
    ensures
        (c as u32) < 128 ==> alnum(c) == {
            let n = c as u32;
            0x30 <= n <= 0x39 || 0x41 <= n <= 0x5a || 0x61 <= n <= 0x7a
        },
        (c as u32) >= 128 ==> alnum(c) == alphanumeric(c),
{
}

/// In lower case an ASCII text is as long as before, capital letters become the
/// small ones, and all else stays; any other text is what `str::to_lowercase`
/// makes of it.
pub proof fn lower_case_of_ascii(s: Seq<char>)
    ensures
        is_ascii_chars(s) ==> lowered(s).len() == s.len(),
        is_ascii_chars(s) ==> forall|i: int|
            0 <= i < s.len() ==> #[trigger] lowered(s)[i] as u32 == if 0x41 <= s[i] as u32
                && s[i] as u32 <= 0x5a {
                s[i] as u32 + 32
            } else {
                s[i] as u32 as int
            },
        !is_ascii_chars(s) ==> lowered(s) == lowercase(s),
{
}

// ── Trimming ─────────────────────────────────────────────────────────────────

/// Trimming gives what stands between the whitespace at either end.
pub proof fn trimming_takes_the_middle(s: Seq<char>, a: int, b: int)
    requires
        0 <= a <= b <= s.len(),
        forall|i: int| 0 <= i < a ==> white(#[trigger] s[i]),
        forall|i: int| b <= i < s.len() ==> white(#[trigger] s[i]),
        a < b ==> !white(s[a]) && !white(s[b - 1]),
    ensures
        trim(s) == s.subrange(a, b),
        a < b ==> trim_start(s) == s.skip(a),
        a < b ==> trim_end(s) == s.take(b),
{
    lemma_trim_start(s);
    let t = trim_start(s);
    let x = s.len() - t.len();
    lemma_trim_end(t);
    lemma_trim_end(s);
    if a == b {
        assert(all_white(s)) by {
            assert forall|i: int| 0 <= i < s.len() implies white(#[trigger] s[i]) by {}
        }
        crate::text::lemma_trim_empty(s);
        assert(trim(s) =~= s.subrange(a, b));
    } else {
        if x < a {
            assert(t.first() == s[x]);
        }
        if x > a {
            assert(white(s[a]));
        }
        assert(x == a);
        let y = trim(s).len();
        assert(trim(s) == t.take(y as int));
        if a + y < b {
            assert(t[b - 1 - a] == s[b - 1]);
        }
        if a + y > b {
            assert(trim(s).last() == s[a + y - 1]);
        }
        assert(trim(s) =~= s.subrange(a, b));
        let z = trim_end(s).len();
        if z < b {
            assert(white(s[b - 1]));
        }
        if z > b {
            assert(trim_end(s).last() == s[z - 1]);
        }
    }
}

// ── Runs and words ───────────────────────────────────────────────────────────

proof fn lemma_run_len_is(mask: Seq<bool>, n: int)
    requires
        0 <= n <= mask.len(),
        forall|i: int| 0 <= i < n ==> #[trigger] mask[i],
        n < mask.len() ==> !mask[n],
    ensures
        run_len(mask) == n,
    decreases mask.len(),
{
    if n > 0 {
        assert(mask[0]);
        lemma_run_len_is(mask.drop_first(), n - 1);
    }
}

/// The runs of a text are its maximal marked stretches, one after the other: what
/// is not marked is passed over, and a marked stretch is a run from its first
/// character to its last.
pub proof fn runs_are_maximal_stretches(s: Seq<char>, mask: Seq<bool>, a: int, b: int)
    requires
        s.len() == mask.len(),
        0 <= a <= b <= s.len(),
        forall|i: int| 0 <= i < a ==> !#[trigger] mask[i],
        forall|i: int| a <= i < b ==> #[trigger] mask[i],
        b < s.len() ==> !mask[b],
    ensures
        a < b ==> runs(s, mask) == seq![s.subrange(a, b)] + runs(s.skip(b), mask.skip(b)),
        a == b && b == s.len() ==> runs(s, mask).len() == 0,
    decreases a,
{
    if a > 0 {
        assert(!mask[0]);
        let t = s.drop_first();
        let m = mask.drop_first();
        runs_are_maximal_stretches(t, m, a - 1, b - 1);
        assert(t.subrange(a - 1, b - 1) =~= s.subrange(a, b));
        assert(t.skip(b - 1) =~= s.skip(b));
        assert(m.skip(b - 1) =~= mask.skip(b));
    } else if b > 0 {
        assert(mask[0]);
        lemma_run_len_is(mask, b);
        assert(s.take(b) =~= s.subrange(0, b));
    }
}

/// The words of a text are its maximal stretches without whitespace, one after
/// the other.
pub proof fn words_are_stretches_without_whitespace(s: Seq<char>, a: int, b: int)
    requires
        0 <= a <= b <= s.len(),
        forall|i: int| 0 <= i < a ==> white(#[trigger] s[i]),
        forall|i: int| a <= i < b ==> !white(#[trigger] s[i]),
        b < s.len() ==> white(s[b]),
    ensures
        a < b ==> words(s) == seq![s.subrange(a, b)] + words(s.skip(b)),
        a == b && b == s.len() ==> words(s).len() == 0,
{
    let m = dark_mask(s);
    assert forall|i: int| 0 <= i < a implies !#[trigger] m[i] by {
        assert(white(s[i]));
    }
    assert forall|i: int| a <= i < b implies #[trigger] m[i] by {
        assert(!white(s[i]));
    }
    runs_are_maximal_stretches(s, m, a, b);
    assert(m.skip(b) =~= dark_mask(s.skip(b)));
}

// ── Joining ──────────────────────────────────────────────────────────────────

/// Joined texts are the texts with a separator before each, but for the first
/// separator.
pub proof fn joining_puts_separators_between(parts: Seq<Seq<char>>, sep: Seq<char>)
    requires
        parts.len() > 0,
    ensures
        sep + join(parts, sep) == parts.map_values(|p: Seq<char>| sep + p).flatten(),
    decreases parts.len(),
{
    let f = |p: Seq<char>| sep + p;
    let all = parts.map_values(f);
    let d = parts.drop_last();
    assert(all =~= d.map_values(f).push(f(parts.last())));
    lemma_flatten_push(d.map_values(f), f(parts.last()));
    if parts.len() == 1 {
        assert(d.map_values(f) =~= Seq::<Seq<char>>::empty());
        assert(d.map_values(f).flatten() =~= Seq::<char>::empty());
        assert(sep + join(parts, sep) =~= all.flatten());
    } else {
        joining_puts_separators_between(d, sep);
        assert(sep + join(parts, sep) =~= all.flatten());
    }
}

/// Laid end to end, a sequence with one text more is longer by that text.
pub proof fn lemma_flatten_push<A>(s: Seq<Seq<A>>, x: Seq<A>)
    ensures
        s.push(x).flatten() == s.flatten() + x,
    decreases s.len(),
{
    if s.len() == 0 {
        assert(s.push(x).drop_first() =~= Seq::<Seq<A>>::empty());
        assert(s.push(x).first() == x);
        assert(Seq::<Seq<A>>::empty().flatten() =~= Seq::<A>::empty());
        assert(s =~= Seq::<Seq<A>>::empty());
        assert(s.push(x).flatten() =~= s.flatten() + x);
    } else {
        assert(s.push(x).drop_first() =~= s.drop_first().push(x));
        lemma_flatten_push(s.drop_first(), x);
        assert(s.push(x).flatten() =~= s.flatten() + x);
    }
}

/// Laid end to end, two sequences are as long as both.
pub proof fn lemma_flatten_add<A>(s: Seq<Seq<A>>, t: Seq<Seq<A>>)
    ensures
        (s + t).flatten() == s.flatten() + t.flatten(),
    decreases t.len(),
{
    if t.len() == 0 {
        assert(s + t =~= s);
        assert(t.flatten() =~= Seq::<A>::empty());
        assert(s.flatten() + t.flatten() =~= s.flatten());
    } else {
        let d = t.drop_last();
        lemma_flatten_add(s, d);
        lemma_flatten_push(s + d, t.last());
        lemma_flatten_push(d, t.last());
        assert(s + t =~= (s + d).push(t.last()));
        assert(t =~= d.push(t.last()));
        assert((s + t).flatten() =~= s.flatten() + t.flatten());
    }
}

// ── Lines ────────────────────────────────────────────────────────────────────

proof fn lemma_line_len_is(s: Seq<char>, n: int)
    requires
        0 <= n <= s.len(),
        forall|i: int| 0 <= i < n ==> #[trigger] s[i] != '\n',
        n < s.len() ==> s[n] == '\n',
    ensures
        line_len(s) == n,
    decreases n,
{
    if n > 0 {
        assert(s[0] != '\n');
        lemma_line_len_is(s.drop_first(), n - 1);
    }
}

/// A line ends before the next line feed, without a carriage return before that;
/// what stands behind the last line feed is a line of its own, unless it is empty.
pub proof fn lines_end_at_line_feeds(s: Seq<char>, n: int)
    requires
        0 <= n <= s.len(),
        forall|i: int| 0 <= i < n ==> #[trigger] s[i] != '\n',
        n < s.len() ==> s[n] == '\n',
    ensures
        n < s.len() && n > 0 && s[n - 1] == '\r' ==> lines(s) == seq![s.take(n - 1)] + lines(
            s.skip(n + 1),
        ),
        n < s.len() && !(n > 0 && s[n - 1] == '\r') ==> lines(s) == seq![s.take(n)] + lines(
            s.skip(n + 1),
        ),
        n == s.len() && n > 0 ==> lines(s) == seq![s],
        s.len() == 0 ==> lines(s).len() == 0,
{
    lemma_line_len_is(s, n);
    if n < s.len() && n > 0 && s[n - 1] == '\r' {
        assert(without_cr(s.take(n)) =~= s.take(n - 1));
    }
}

/// A text is blank if and only if trimming leaves nothing of it, and if and only
/// if it holds no character but whitespace.
pub proof fn blank_texts_hold_only_whitespace(s: Seq<char>)
    ensures
        all_white(s) <==> trim(s).len() == 0,
        all_white(s) <==> !exists|i: int| 0 <= i < s.len() && !white(#[trigger] s[i]),
{
    crate::text::lemma_trim_empty(s);
}

} // verus!
