//! Looking into texts: substrings, prefixes, single characters, lengths in
//! bytes, equality and the order of strings.
use vstd::prelude::*;
use vstd::utf8::{encode_utf8, encode_utf8_decode_utf8};

use crate::text::{chars_of, string_of};

verus! {

// ── Substrings ───────────────────────────────────────────────────────────────

/// `t` stands in `s` at position `i`.
pub open spec fn at(s: Seq<char>, t: Seq<char>, i: int) -> bool {
    0 <= i && i + t.len() <= s.len() && s.subrange(i, i + t.len()) == t
}

/// `t` stands somewhere in `s`.
pub open spec fn contains(s: Seq<char>, t: Seq<char>) -> bool {
    exists|i: int| at(s, t, i)
}

/// The first position at which `t` stands in `s`.
pub open spec fn first_at(s: Seq<char>, t: Seq<char>) -> Option<int> {
    if contains(s, t) {
        Some(choose|i: int| at(s, t, i) && forall|k: int| 0 <= k < i ==> !at(s, t, k))
    } else {
        None
    }
}

/// A first position is a position, and no earlier one is.
pub proof fn lemma_first_at(s: Seq<char>, t: Seq<char>, i: int)
    requires
        at(s, t, i),
        forall|k: int| 0 <= k < i ==> !at(s, t, k),
    ensures
        first_at(s, t) == Some(i),
{
    let j = choose|i: int| at(s, t, i) && forall|k: int| 0 <= k < i ==> !at(s, t, k);
    assert(at(s, t, i) && forall|k: int| 0 <= k < i ==> !at(s, t, k));
    assert(at(s, t, j));
    if j < i {
        assert(!at(s, t, j));
    }
    if i < j {
        assert(!at(s, t, i));
    }
}

/// Whether `t` stands in `s` at position `i`.
pub fn is_at(s: &[char], t: &[char], i: usize) -> (r: bool)
    ensures
        r == at(s@, t@, i as int),
{
    if i > s.len() || t.len() > s.len() - i {
        return false;
    }
    let n: usize = s.len();
    let mut k: usize = 0;
    while k < t.len()
        invariant
            n == s@.len(),
            k <= t@.len(),
            i + t@.len() <= n,
            forall|m: int| 0 <= m < k ==> #[trigger] s@[i + m] == t@[m],
        decreases t@.len() - k,
    {
        if s[i + k] != t[k] {
            proof {
                assert(s@.subrange(i as int, i + t@.len())[k as int] == s@[i + k]);
            }
            return false;
        }
        k = k + 1;
    }
    proof {
        assert forall|m: int| 0 <= m < t@.len() implies s@.subrange(i as int, i + t@.len())[m]
            == t@[m] by {
            assert(s@[i + m] == t@[m]);
        }
        assert(s@.subrange(i as int, i + t@.len()) =~= t@);
    }
    true
}

/// The first position at which `t` stands in `s`.
pub fn find_chars(s: &[char], t: &[char]) -> (r: Option<usize>)
    ensures
        match r {
            Some(i) => first_at(s@, t@) == Some(i as int) && i + t@.len() <= s@.len()
                && s@.len() <= usize::MAX,
            None => first_at(s@, t@) is None,
        },
{
    let mut i: usize = 0;
    while i <= s.len() && t.len() <= s.len() - i
        invariant
            i <= s@.len() + 1,
            forall|k: int| 0 <= k < i ==> !at(s@, t@, k),
        decreases s@.len() + 1 - i,
    {
        if is_at(s, t, i) {
            proof {
                lemma_first_at(s@, t@, i as int);
            }
            return Some(i);
        }
        if i == s.len() {
            proof {
                assert forall|k: int| !at(s@, t@, k) by {
                    if k > s@.len() {
                    }
                }
            }
            return None;
        }
        i = i + 1;
    }
    proof {
        assert forall|k: int| !at(s@, t@, k) by {
            if k >= i && at(s@, t@, k) {
                assert(k + t@.len() <= s@.len());
            }
        }
    }
    None
}

/// Whether `t` stands somewhere in `s`.
pub fn text_contains(s: &str, t: &str) -> (r: bool)
    ensures
        r == contains(s@, t@),
{
    let a = chars_of(s);
    let b = chars_of(t);
    match find_chars(&a, &b) {
        Some(_) => true,
        None => false,
    }
}

/// `s` begins with `t`.
pub open spec fn starts(s: Seq<char>, t: Seq<char>) -> bool {
    at(s, t, 0)
}

/// Whether `s` begins with `t`.
pub fn text_starts(s: &str, t: &str) -> (r: bool)
    ensures
        r == starts(s@, t@),
{
    let a = chars_of(s);
    let b = chars_of(t);
    is_at(&a, &b, 0)
}

// ── Single characters ────────────────────────────────────────────────────────

/// The last position of `c` in `s`, or -1.
pub open spec fn last_of(s: Seq<char>, c: char) -> int
    decreases s.len(),
{
    if s.len() == 0 {
        -1
    } else if s.last() == c {
        s.len() - 1
    } else {
        last_of(s.drop_last(), c)
    }
}

/// `s` up to its last `c`, or all of it where there is none.
pub open spec fn before_last(s: Seq<char>, c: char) -> Seq<char> {
    if last_of(s, c) < 0 {
        s
    } else {
        s.take(last_of(s, c))
    }
}

/// `s` up to its last `c`, or all of it where there is none.
pub fn text_before_last(s: &str, c: char) -> (r: String)
    ensures
        r@ == before_last(s@, c),
{
    let cs = chars_of(s);
    let mut n: usize = cs.len();
    proof {
        assert(s@.take(n as int) =~= s@);
    }
    while n > 0 && cs[n - 1] != c
        invariant
            n <= cs@.len(),
            cs@ == s@,
            last_of(s@, c) == last_of(s@.take(n as int), c),
        decreases n,
    {
        proof {
            assert(s@.take(n as int).drop_last() =~= s@.take(n - 1));
        }
        n = n - 1;
    }
    if n == 0 {
        return string_of(&cs, 0, cs.len());
    }
    string_of(&cs, 0, n - 1)
}

/// `s` without the run of `c` at its end.
pub open spec fn strip_end(s: Seq<char>, c: char) -> Seq<char>
    decreases s.len(),
{
    if s.len() > 0 && s.last() == c {
        strip_end(s.drop_last(), c)
    } else {
        s
    }
}

/// `s` without the run of `c` at its end.
pub fn text_strip_end(s: &str, c: char) -> (r: String)
    ensures
        r@ == strip_end(s@, c),
{
    let cs = chars_of(s);
    let mut n: usize = cs.len();
    proof {
        assert(s@.take(n as int) =~= s@);
    }
    while n > 0 && cs[n - 1] == c
        invariant
            n <= cs@.len(),
            cs@ == s@,
            strip_end(s@, c) == strip_end(s@.take(n as int), c),
        decreases n,
    {
        proof {
            assert(s@.take(n as int).drop_last() =~= s@.take(n - 1));
        }
        n = n - 1;
    }
    string_of(&cs, 0, n)
}

// ── Length in bytes ──────────────────────────────────────────────────────────

/// The length of a text in UTF-8.
pub open spec fn byte_len(s: Seq<char>) -> nat {
    encode_utf8(s).len()
}

/// The length of a text in UTF-8.
pub fn bytes_in(s: &str) -> (n: usize)
    ensures
        n == byte_len(s@),
{
    s.as_bytes().len()
}

// ── Equality and order ───────────────────────────────────────────────────────

/// Whether two texts are the same.
pub fn same_text(a: &str, b: &str) -> (r: bool)
    ensures
        r == (a@ == b@),
{
    let x = a.as_bytes();
    let y = b.as_bytes();
    if x.len() != y.len() {
        return false;
    }
    let mut i: usize = 0;
    while i < x.len()
        invariant
            i <= x@.len(),
            x@.len() == y@.len(),
            x@ == encode_utf8(a@),
            y@ == encode_utf8(b@),
            forall|k: int| 0 <= k < i ==> x@[k] == y@[k],
        decreases x@.len() - i,
    {
        if x[i] != y[i] {
            return false;
        }
        i = i + 1;
    }
    proof {
        assert(x@ =~= y@);
        encode_utf8_decode_utf8(a@);
        encode_utf8_decode_utf8(b@);
    }
    true
}

/// `a` comes before `b`: the first character in which they differ is the
/// smaller one in `a`, or `a` is the beginning of `b`.
pub open spec fn text_before(a: Seq<char>, b: Seq<char>) -> bool
    decreases a.len(),
{
    if b.len() == 0 {
        false
    } else if a.len() == 0 {
        true
    } else if a[0] != b[0] {
        a[0] < b[0]
    } else {
        text_before(a.drop_first(), b.drop_first())
    }
}

/// Of two texts exactly one comes before the other, or they are the same.
pub proof fn lemma_text_before_total(a: Seq<char>, b: Seq<char>)
    ensures
        text_before(a, b) || text_before(b, a) || a == b,
        !(text_before(a, b) && text_before(b, a)),
        a == b ==> !text_before(a, b),
    decreases a.len(),
{
    if a.len() > 0 && b.len() > 0 && a[0] == b[0] {
        lemma_text_before_total(a.drop_first(), b.drop_first());
        if a.drop_first() == b.drop_first() {
            assert(a =~= seq![a[0]] + a.drop_first());
            assert(b =~= seq![b[0]] + b.drop_first());
        }
    } else if a.len() == 0 && b.len() == 0 {
        assert(a =~= b);
    }
}

/// The order of texts is transitive.
pub proof fn lemma_text_before_trans(a: Seq<char>, b: Seq<char>, c: Seq<char>)
    requires
        text_before(a, b),
        text_before(b, c),
    ensures
        text_before(a, c),
    decreases a.len(),
{
    if a.len() > 0 && a[0] == b[0] && b[0] == c[0] {
        lemma_text_before_trans(a.drop_first(), b.drop_first(), c.drop_first());
    }
}

/// Whether `a` comes before `b`.
pub fn comes_before(a: &str, b: &str) -> (r: bool)
    ensures
        r == text_before(a@, b@),
{
    let x = chars_of(a);
    let y = chars_of(b);
    let mut i: usize = 0;
    proof {
        assert(x@.skip(0) =~= x@);
        assert(y@.skip(0) =~= y@);
    }
    while i < x.len() && i < y.len() && x[i] == y[i]
        invariant
            i <= x@.len(),
            i <= y@.len(),
            x@ == a@,
            y@ == b@,
            text_before(a@, b@) == text_before(x@.skip(i as int), y@.skip(i as int)),
        decreases x@.len() - i,
    {
        proof {
            assert(x@.skip(i as int).drop_first() =~= x@.skip(i + 1));
            assert(y@.skip(i as int).drop_first() =~= y@.skip(i + 1));
        }
        i = i + 1;
    }
    if i == y.len() {
        false
    } else if i == x.len() {
        true
    } else {
        x[i] < y[i]
    }
}

} // verus!
