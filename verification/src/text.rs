//! Text as sequences of characters: whitespace, letters and digits, case,
//! trimming, words and lines.
use vstd::prelude::*;
use vstd::utf8::is_ascii_chars;

verus! {

// ── Characters ───────────────────────────────────────────────────────────────

/// Unicode's `White_Space` property.
pub open spec fn white(c: char) -> bool {
    ||| c == ' '
    ||| '\u{9}' <= c <= '\u{d}'
    ||| c == '\u{85}'
    ||| c == '\u{a0}'
    ||| c == '\u{1680}'
    ||| '\u{2000}' <= c <= '\u{200a}'
    ||| c == '\u{2028}'
    ||| c == '\u{2029}'
    ||| c == '\u{202f}'
    ||| c == '\u{205f}'
    ||| c == '\u{3000}'
}

/// Whether `c` is whitespace.
pub fn is_white(c: char) -> (r: bool)
    ensures
        r == white(c),
{
    c == ' ' || ('\u{9}' <= c && c <= '\u{d}') || c == '\u{85}' || c == '\u{a0}' || c == '\u{1680}'
        || ('\u{2000}' <= c && c <= '\u{200a}') || c == '\u{2028}' || c == '\u{2029}' || c
        == '\u{202f}' || c == '\u{205f}' || c == '\u{3000}'
}

/// Every character of `s` is whitespace.
pub open spec fn all_white(s: Seq<char>) -> bool {
    forall|i: int| 0 <= i < s.len() ==> white(#[trigger] s[i])
}

/// What `char::is_alphanumeric` answers: the Unicode `Alphabetic` property or
/// one of the number categories.
pub uninterp spec fn alphanumeric(c: char) -> bool;

/// An ASCII letter or digit.
pub open spec fn ascii_alnum(c: char) -> bool {
    'a' <= c <= 'z' || 'A' <= c <= 'Z' || '0' <= c <= '9'
}

/// `char::is_alphanumeric` depends on the character alone. Of the ASCII
/// characters it accepts the letters and the digits; of the others, those that
/// Unicode's tables say, which is left to its name.
pub assume_specification[ char::is_alphanumeric ](c: char) -> (r: bool)
    ensures
        r == alphanumeric(c),
        (c as u32) < 128 ==> r == ascii_alnum(c),
;

/// A letter or a digit. On ASCII this is spelt out; elsewhere it is what
/// `char::is_alphanumeric` answers.
pub open spec fn alnum(c: char) -> bool {
    if (c as u32) < 128 {
        ascii_alnum(c)
    } else {
        alphanumeric(c)
    }
}

/// Where a text holds letters and digits.
pub open spec fn alnum_mask(s: Seq<char>) -> Seq<bool> {
    s.map_values(|c: char| alnum(c))
}

/// Where a text holds letters and digits.
pub fn alnum_mask_of(s: &[char]) -> (r: Vec<bool>)
    ensures
        r@ == alnum_mask(s@),
{
    let mut r: Vec<bool> = Vec::new();
    let mut i: usize = 0;
    while i < s.len()
        invariant
            i <= s@.len(),
            r@.len() == i,
            forall|k: int| 0 <= k < i ==> #[trigger] r@[k] == alnum(s@[k]),
        decreases s@.len() - i,
    {
        r.push(s[i].is_alphanumeric());
        i = i + 1;
    }
    proof {
        assert(r@ =~= alnum_mask(s@));
    }
    r
}

// ── Case ─────────────────────────────────────────────────────────────────────

/// What `str::to_lowercase` makes of a text.
pub uninterp spec fn lowercase(s: Seq<char>) -> Seq<char>;

/// One ASCII character in lower case.
pub open spec fn ascii_lower_char(c: char) -> char {
    if 'A' <= c <= 'Z' {
        ((c as u32) + 32) as char
    } else {
        c
    }
}

/// `str::to_lowercase` depends on the text alone. On a text of ASCII characters
/// it maps `A` to `Z` onto `a` to `z` and keeps the rest.
pub assume_specification[ str::to_lowercase ](s: &str) -> (r: String)
    ensures
        r@ == lowercase(s@),
        is_ascii_chars(s@) ==> r@ == s@.map_values(|c: char| ascii_lower_char(c)),
;

/// A text in lower case. On ASCII this is spelt out; elsewhere it is what
/// `str::to_lowercase` makes of it.
pub open spec fn lowered(s: Seq<char>) -> Seq<char> {
    if is_ascii_chars(s) {
        s.map_values(|c: char| ascii_lower_char(c))
    } else {
        lowercase(s)
    }
}

/// A text in lower case.
pub fn lower(s: &str) -> (r: String)
    ensures
        r@ == lowered(s@),
{
    s.to_lowercase()
}

// ── Building strings ─────────────────────────────────────────────────────────

/// `String::push` appends one character.
pub assume_specification[ String::push ](s: &mut String, c: char)
    ensures
        final(s)@ == old(s)@.push(c),
;

/// `String::push_str` appends a text.
pub assume_specification[ String::push_str ](s: &mut String, t: &str)
    ensures
        final(s)@ == old(s)@ + t@,
;

/// The content of an optional text.
pub open spec fn opt_text(o: Option<String>) -> Option<Seq<char>> {
    match o {
        Some(s) => Some(s@),
        None => None,
    }
}

/// A copy of an optional text.
pub fn copy_opt(o: &Option<String>) -> (r: Option<String>)
    ensures
        opt_text(r) == opt_text(*o),
{
    match o {
        Some(s) => Some(s.clone()),
        None => None,
    }
}

/// The characters of a text.
pub fn chars_of(s: &str) -> (r: Vec<char>)
    ensures
        r@ == s@,
{
    let mut r: Vec<char> = Vec::new();
    for c in it: s.chars()
        invariant
            it.seq() == s@,
            r@ == s@.take(it.index()),
    {
        proof {
            assert(s@.take(it.index()).push(c) =~= s@.take(it.index() + 1));
        }
        r.push(c);
    }
    proof {
        assert(s@.take(s@.len() as int) =~= s@);
    }
    r
}

/// The text made of characters `from..to` of `s`.
pub fn string_of(s: &[char], from: usize, to: usize) -> (r: String)
    requires
        from <= to <= s@.len(),
    ensures
        r@ == s@.subrange(from as int, to as int),
{
    let mut r = String::new();
    let mut i: usize = from;
    while i < to
        invariant
            from <= i <= to <= s@.len(),
            r@ == s@.subrange(from as int, i as int),
        decreases to - i,
    {
        r.push(s[i]);
        proof {
            assert(s@.subrange(from as int, i as int).push(s@[i as int]) =~= s@.subrange(
                from as int,
                i + 1,
            ));
        }
        i = i + 1;
    }
    r
}

// ── Trimming ─────────────────────────────────────────────────────────────────

/// `s` without its leading whitespace.
pub open spec fn trim_start(s: Seq<char>) -> Seq<char>
    decreases s.len(),
{
    if s.len() > 0 && white(s.first()) {
        trim_start(s.drop_first())
    } else {
        s
    }
}

/// `s` without its trailing whitespace.
pub open spec fn trim_end(s: Seq<char>) -> Seq<char>
    decreases s.len(),
{
    if s.len() > 0 && white(s.last()) {
        trim_end(s.drop_last())
    } else {
        s
    }
}

/// `s` without the whitespace at either end.
pub open spec fn trim(s: Seq<char>) -> Seq<char> {
    trim_end(trim_start(s))
}

/// The position of the first character of `s` that is not whitespace.
pub fn start_of_text(s: &[char]) -> (i: usize)
    ensures
        i <= s@.len(),
        trim_start(s@) == s@.skip(i as int),
        forall|k: int| 0 <= k < i ==> white(#[trigger] s@[k]),
        i < s@.len() ==> !white(s@[i as int]),
{
    let mut i: usize = 0;
    proof {
        assert(s@.skip(0) =~= s@);
    }
    while i < s.len() && is_white(s[i])
        invariant
            i <= s@.len(),
            trim_start(s@) == trim_start(s@.skip(i as int)),
            forall|k: int| 0 <= k < i ==> white(#[trigger] s@[k]),
        decreases s@.len() - i,
    {
        proof {
            assert(s@.skip(i as int).drop_first() =~= s@.skip(i + 1));
        }
        i = i + 1;
    }
    i
}

/// The bounds of `s` trimmed at both ends.
pub fn trim_bounds(s: &[char]) -> (r: (usize, usize))
    ensures
        r.0 <= r.1 <= s@.len(),
        trim(s@) == s@.subrange(r.0 as int, r.1 as int),
{
    let i = start_of_text(s);
    let mut j: usize = s.len();
    proof {
        assert(s@.skip(i as int) =~= s@.subrange(i as int, j as int));
    }
    while i < j && is_white(s[j - 1])
        invariant
            i <= j <= s@.len(),
            trim(s@) == trim_end(s@.subrange(i as int, j as int)),
        decreases j,
    {
        proof {
            assert(s@.subrange(i as int, j as int).drop_last() =~= s@.subrange(i as int, j - 1));
        }
        j = j - 1;
    }
    (i, j)
}

/// A text trimmed at both ends.
pub fn trimmed(s: &str) -> (r: String)
    ensures
        r@ == trim(s@),
{
    let cs = chars_of(s);
    let (i, j) = trim_bounds(&cs);
    string_of(&cs, i, j)
}

/// Trimming keeps a text that is not all whitespace, and empties one that is.
pub proof fn lemma_trim_empty(s: Seq<char>)
    ensures
        trim(s).len() == 0 <==> all_white(s),
{
    lemma_trim_start(s);
    lemma_trim_end(trim_start(s));
    let t = trim_start(s);
    let k = s.len() - t.len();
    if all_white(s) {
        if t.len() > 0 {
            assert(t[0] == s[k]);
        }
    } else {
        let w = choose|i: int| 0 <= i < s.len() && !white(#[trigger] s[i]);
        assert(w >= k);
        assert(t[w - k] == s[w]);
        assert(!all_white(t));
        if trim_end(t).len() == 0 {
            assert(all_white(t));
        }
    }
}

/// Trimming at the front drops exactly a run of whitespace.
pub proof fn lemma_trim_start(s: Seq<char>)
    ensures
        trim_start(s).len() <= s.len(),
        trim_start(s) == s.skip(s.len() - trim_start(s).len()),
        forall|i: int| 0 <= i < s.len() - trim_start(s).len() ==> white(#[trigger] s[i]),
        trim_start(s).len() > 0 ==> !white(trim_start(s).first()),
    decreases s.len(),
{
    if s.len() > 0 && white(s.first()) {
        let d = s.drop_first();
        lemma_trim_start(d);
        let t = trim_start(s);
        assert(d.skip(d.len() - t.len()) =~= s.skip(s.len() - t.len()));
        assert forall|i: int| 0 <= i < s.len() - t.len() implies white(#[trigger] s[i]) by {
            if i > 0 {
                assert(s[i] == d[i - 1]);
            }
        }
    } else {
        assert(s.skip(0) =~= s);
    }
}

/// Trimming at the back drops exactly a run of whitespace.
pub proof fn lemma_trim_end(s: Seq<char>)
    ensures
        trim_end(s).len() <= s.len(),
        trim_end(s) == s.take(trim_end(s).len() as int),
        forall|i: int| trim_end(s).len() <= i < s.len() ==> white(#[trigger] s[i]),
        trim_end(s).len() > 0 ==> !white(trim_end(s).last()),
    decreases s.len(),
{
    if s.len() > 0 && white(s.last()) {
        let d = s.drop_last();
        lemma_trim_end(d);
        let t = trim_end(s);
        assert(d.take(t.len() as int) =~= s.take(t.len() as int));
        assert forall|i: int| t.len() <= i < s.len() implies white(#[trigger] s[i]) by {
            if i < d.len() {
                assert(s[i] == d[i]);
            }
        }
    } else {
        assert(s.take(s.len() as int) =~= s);
    }
}

/// A trimmed text is no longer than the text, and starts and ends with a
/// character that is not whitespace.
pub proof fn lemma_trim(s: Seq<char>)
    ensures
        trim(s).len() <= s.len(),
        trim(s).len() > 0 ==> !white(trim(s).first()) && !white(trim(s).last()),
        trim(trim(s)) == trim(s),
{
    lemma_trim_start(s);
    lemma_trim_end(trim_start(s));
    let t = trim(s);
    if t.len() > 0 {
        assert(t.first() == trim_start(s).first());
    }
}

// ── Runs and words ───────────────────────────────────────────────────────────

/// How many positions at the front of `mask` are set.
pub open spec fn run_len(mask: Seq<bool>) -> nat
    decreases mask.len(),
{
    if mask.len() > 0 && mask.first() {
        1 + run_len(mask.drop_first())
    } else {
        0
    }
}

/// A run is no longer than the mask it is taken from.
pub proof fn lemma_run_len(mask: Seq<bool>)
    ensures
        run_len(mask) <= mask.len(),
    decreases mask.len(),
{
    if mask.len() > 0 && mask.first() {
        lemma_run_len(mask.drop_first());
    }
}

/// The maximal stretches of `s` on which `mask` is set, in order.
pub open spec fn runs(s: Seq<char>, mask: Seq<bool>) -> Seq<Seq<char>>
    decreases mask.len(),
{
    if mask.len() == 0 {
        Seq::empty()
    } else if !mask.first() {
        runs(s.drop_first(), mask.drop_first())
    } else {
        proof {
            lemma_run_len(mask);
        }
        let n = run_len(mask) as int;
        seq![s.take(n)] + runs(s.skip(n), mask.skip(n))
    }
}

/// The maximal stretches of `s` on which `mask` is set, in order.
pub fn runs_of(s: &[char], mask: &[bool]) -> (r: Vec<String>)
    requires
        mask@.len() == s@.len(),
    ensures
        r.deep_view() == runs(s@, mask@),
{
    let mut r: Vec<String> = Vec::new();
    let mut i: usize = 0;
    proof {
        assert(s@.skip(0) =~= s@);
        assert(mask@.skip(0) =~= mask@);
        assert(r.deep_view() =~= Seq::<Seq<char>>::empty());
        assert(Seq::<Seq<char>>::empty() + runs(s@, mask@) =~= runs(s@, mask@));
    }
    while i < s.len()
        invariant
            i <= s@.len(),
            mask@.len() == s@.len(),
            runs(s@, mask@) == r.deep_view() + runs(s@.skip(i as int), mask@.skip(i as int)),
        decreases s@.len() - i,
    {
        let ghost rest_s = s@.skip(i as int);
        let ghost rest_m = mask@.skip(i as int);
        if !mask[i] {
            proof {
                assert(rest_s.drop_first() =~= s@.skip(i + 1));
                assert(rest_m.drop_first() =~= mask@.skip(i + 1));
            }
            i = i + 1;
        } else {
            let mut j: usize = i;
            while j < s.len() && mask[j]
                invariant
                    i <= j <= s@.len(),
                    mask@.len() == s@.len(),
                    run_len(mask@.skip(i as int)) == (j - i) + run_len(mask@.skip(j as int)),
                decreases s@.len() - j,
            {
                proof {
                    assert(mask@.skip(j as int).drop_first() =~= mask@.skip(j + 1));
                }
                j = j + 1;
            }
            proof {
                assert(run_len(mask@.skip(j as int)) == 0);
                let n = (j - i) as int;
                assert(run_len(rest_m) == n);
                assert(rest_s.take(n) =~= s@.subrange(i as int, j as int));
                assert(rest_s.skip(n) =~= s@.skip(j as int));
                assert(rest_m.skip(n) =~= mask@.skip(j as int));
            }
            let w = string_of(s, i, j);
            let ghost before = r.deep_view();
            r.push(w);
            proof {
                assert(r.deep_view() =~= before.push(w@));
                assert(before + (seq![w@] + runs(s@.skip(j as int), mask@.skip(j as int)))
                    =~= before.push(w@) + runs(s@.skip(j as int), mask@.skip(j as int)));
            }
            i = j;
        }
    }
    proof {
        assert(runs(s@.skip(i as int), mask@.skip(i as int)) =~= Seq::<Seq<char>>::empty());
        assert(runs(s@, mask@) =~= r.deep_view());
    }
    r
}

/// Where a text is not whitespace.
pub open spec fn dark_mask(s: Seq<char>) -> Seq<bool> {
    s.map_values(|c: char| !white(c))
}

/// The words of a text: its maximal stretches without whitespace.
pub open spec fn words(s: Seq<char>) -> Seq<Seq<char>> {
    runs(s, dark_mask(s))
}

/// The words of a text: its maximal stretches without whitespace.
pub fn words_of(s: &str) -> (r: Vec<String>)
    ensures
        r.deep_view() == words(s@),
{
    let cs = chars_of(s);
    let mut mask: Vec<bool> = Vec::new();
    let mut i: usize = 0;
    while i < cs.len()
        invariant
            i <= cs@.len(),
            mask@ == dark_mask(cs@.take(i as int)),
        decreases cs@.len() - i,
    {
        mask.push(!is_white(cs[i]));
        proof {
            assert(mask@ =~= dark_mask(cs@.take(i + 1)));
        }
        i = i + 1;
    }
    proof {
        assert(cs@.take(i as int) =~= cs@);
    }
    runs_of(&cs, &mask)
}

// ── Joining ──────────────────────────────────────────────────────────────────

/// The parts, with `sep` between each two.
pub open spec fn join(parts: Seq<Seq<char>>, sep: Seq<char>) -> Seq<char>
    decreases parts.len(),
{
    if parts.len() == 0 {
        Seq::empty()
    } else if parts.len() == 1 {
        parts[0]
    } else {
        join(parts.drop_last(), sep) + sep + parts.last()
    }
}

/// Parts `from..to`, with `sep` between each two.
pub fn joined_range(parts: &[String], from: usize, to: usize, sep: &str) -> (r: String)
    requires
        from <= to <= parts@.len(),
    ensures
        r@ == join(parts.deep_view().subrange(from as int, to as int), sep@),
{
    let mut r = String::new();
    let mut i: usize = from;
    let ghost ps = parts.deep_view();
    proof {
        assert(ps.subrange(from as int, from as int) =~= Seq::<Seq<char>>::empty());
    }
    while i < to
        invariant
            from <= i <= to <= parts@.len(),
            ps == parts.deep_view(),
            ps.len() == parts@.len(),
            r@ == join(ps.subrange(from as int, i as int), sep@),
        decreases to - i,
    {
        if i > from {
            r.push_str(sep);
        }
        r.push_str(parts[i].as_str());
        proof {
            let next = ps.subrange(from as int, i + 1);
            assert(next.drop_last() =~= ps.subrange(from as int, i as int));
            assert(next.last() == parts@[i as int]@);
            if i == from {
                assert(r@ =~= next[0]);
            }
        }
        i = i + 1;
    }
    r
}

/// The parts, with `sep` between each two.
pub fn joined(parts: &[String], sep: &str) -> (r: String)
    ensures
        r@ == join(parts.deep_view(), sep@),
{
    proof {
        let ps = parts.deep_view();
        assert(ps.subrange(0, ps.len() as int) =~= ps);
    }
    joined_range(parts, 0, parts.len(), sep)
}

// ── Lines ────────────────────────────────────────────────────────────────────

/// How many characters stand before the first line feed.
pub open spec fn line_len(s: Seq<char>) -> nat
    decreases s.len(),
{
    if s.len() == 0 || s.first() == '\n' {
        0
    } else {
        1 + line_len(s.drop_first())
    }
}

/// `s` without a carriage return at its end.
pub open spec fn without_cr(s: Seq<char>) -> Seq<char> {
    if s.len() > 0 && s.last() == '\r' {
        s.drop_last()
    } else {
        s
    }
}

/// The lines of a text. A line ends with a line feed, or with a carriage return
/// and a line feed; the ending of the last line is optional.
pub open spec fn lines(s: Seq<char>) -> Seq<Seq<char>>
    decreases s.len(),
{
    if s.len() == 0 {
        Seq::empty()
    } else {
        let n = line_len(s) as int;
        if n >= s.len() {
            seq![s]
        } else {
            seq![without_cr(s.take(n))] + lines(s.skip(n + 1))
        }
    }
}

/// The lines of a text.
pub fn lines_of(s: &[char]) -> (r: Vec<String>)
    ensures
        r.deep_view() == lines(s@),
{
    let mut r: Vec<String> = Vec::new();
    let mut i: usize = 0;
    proof {
        assert(s@.skip(0) =~= s@);
        assert(r.deep_view() =~= Seq::<Seq<char>>::empty());
        assert(r.deep_view() + lines(s@) =~= lines(s@));
    }
    while i < s.len()
        invariant
            i <= s@.len(),
            lines(s@) == r.deep_view() + lines(s@.skip(i as int)),
        decreases s@.len() - i,
    {
        let ghost rest = s@.skip(i as int);
        let mut j: usize = i;
        while j < s.len() && s[j] != '\n'
            invariant
                i <= j <= s@.len(),
                line_len(s@.skip(i as int)) == (j - i) + line_len(s@.skip(j as int)),
            decreases s@.len() - j,
        {
            proof {
                assert(s@.skip(j as int).drop_first() =~= s@.skip(j + 1));
            }
            j = j + 1;
        }
        let ghost n = (j - i) as int;
        let ghost before = r.deep_view();
        proof {
            assert(line_len(s@.skip(j as int)) == 0);
            assert(rest.take(n) =~= s@.subrange(i as int, j as int));
        }
        if j == s.len() {
            let line = string_of(s, i, j);
            r.push(line);
            proof {
                assert(line@ =~= rest);
                assert(r.deep_view() =~= before.push(line@));
                assert(lines(s@) =~= r.deep_view());
                assert(s@.skip(j as int) =~= Seq::<char>::empty());
                assert(lines(s@.skip(j as int)) =~= Seq::<Seq<char>>::empty());
                assert(lines(s@) =~= r.deep_view() + lines(s@.skip(j as int)));
            }
            i = j;
        } else {
            let end: usize = if j > i && s[j - 1] == '\r' {
                j - 1
            } else {
                j
            };
            let line = string_of(s, i, end);
            r.push(line);
            proof {
                assert(line@ =~= without_cr(rest.take(n)));
                assert(rest.skip(n + 1) =~= s@.skip(j + 1));
                assert(r.deep_view() =~= before.push(line@));
                assert(before + (seq![line@] + lines(s@.skip(j + 1))) =~= before.push(line@)
                    + lines(s@.skip(j + 1)));
            }
            i = j + 1;
        }
    }
    proof {
        assert(s@.skip(i as int) =~= Seq::<char>::empty());
        assert(lines(s@) =~= r.deep_view());
    }
    r
}

} // verus!
