//! What it means that a text stands in another, begins it, or comes before it.
use vstd::prelude::*;
use vstd::utf8::encode_utf8;

use crate::search::{
    at, before_last, byte_len, contains, first_at, last_of, lemma_first_at, starts, strip_end,
    text_before,
};

verus! {

/// A text stands in another if and only if the other is something, the text, and
/// something more.
pub proof fn containing_is_having_a_part(s: Seq<char>, t: Seq<char>)
    ensures
        contains(s, t) <==> exists|a: Seq<char>, b: Seq<char>| s == #[trigger] (a + t + b),
        starts(s, t) <==> t.is_prefix_of(s),
{
    if contains(s, t) {
        let i = choose|i: int| at(s, t, i);
        let a = s.take(i);
        let b = s.skip(i + t.len());
        assert(s =~= a + t + b);
    }
    if (exists|a: Seq<char>, b: Seq<char>| s == #[trigger] (a + t + b)) {
        let (a, b) = choose|a: Seq<char>, b: Seq<char>| s == #[trigger] (a + t + b);
        let i = a.len() as int;
        assert((a + t + b).subrange(i, i + t.len()) =~= t);
        assert(at(s, t, i));
    }
    if t.is_prefix_of(s) {
        assert(s.subrange(0, t.len() as int) =~= t);
    }
    if starts(s, t) {
        assert(s.subrange(0, t.len() as int) =~= t);
    }
}

/// The first place of a text in another is one from which it reads, and it reads
/// from no earlier place; there is one if and only if the text stands in it.
pub proof fn the_first_place_is_found(s: Seq<char>, t: Seq<char>, i: int)
    requires
        0 <= i,
        i + t.len() <= s.len(),
        s.subrange(i, i + t.len()) == t,
        forall|k: int|
            0 <= k < i ==> #[trigger] s.subrange(k, k + t.len()) != t,
    ensures
        first_at(s, t) == Some(i),
{
    assert forall|k: int| 0 <= k < i implies !at(s, t, k) by {
        assert(s.subrange(k, k + t.len()) != t);
    }
    lemma_first_at(s, t, i);
}

/// Where a text does not stand in another it has no first place there.
pub proof fn what_is_missing_has_no_place(s: Seq<char>, t: Seq<char>)
    requires
        forall|k: int|
            0 <= k && k + t.len() <= s.len() ==> #[trigger] s.subrange(k, k + t.len()) != t,
    ensures
        first_at(s, t) is None,
        !contains(s, t),
{
    assert forall|k: int| !at(s, t, k) by {
        if 0 <= k && k + t.len() <= s.len() {
            assert(s.subrange(k, k + t.len()) != t);
        }
    }
}

/// What stands before the last `c` of a text is what stands before a `c` behind
/// which there is no other; a text without one is taken whole.
pub proof fn the_last_one_is_found(s: Seq<char>, c: char, p: int)
    requires
        -1 <= p < s.len(),
        p >= 0 ==> s[p] == c,
        forall|k: int| p < k < s.len() ==> #[trigger] s[k] != c,
    ensures
        p >= 0 ==> before_last(s, c) == s.take(p),
        p < 0 ==> before_last(s, c) == s,
        last_of(s, c) == p,
    decreases s.len(),
{
    if s.len() > 0 && s.last() != c {
        let d = s.drop_last();
        assert forall|k: int| p < k < d.len() implies #[trigger] d[k] != c by {
            assert(s[k] != c);
        }
        if p == s.len() - 1 {
            assert(s[p] == c);
        }
        the_last_one_is_found(d, c, p);
    } else if s.len() > 0 && p < s.len() - 1 {
        assert(s[s.len() - 1] != c);
    }
}

/// Stripping the end of a text drops the run of `c` there, and nothing else.
pub proof fn only_the_end_is_stripped(s: Seq<char>, c: char, n: int)
    requires
        0 <= n <= s.len(),
        forall|k: int| n <= k < s.len() ==> #[trigger] s[k] == c,
        n > 0 ==> s[n - 1] != c,
    ensures
        strip_end(s, c) == s.take(n),
    decreases s.len(),
{
    if n < s.len() {
        assert(s[s.len() - 1] == c);
        let d = s.drop_last();
        only_the_end_is_stripped(d, c, n);
        assert(d.take(n) =~= s.take(n));
    } else {
        assert(s.take(n) =~= s);
    }
}

/// Texts are in the order of the first characters in which they differ, and the
/// beginning of a text comes before it.
pub proof fn texts_are_ordered_by_their_first_difference(a: Seq<char>, b: Seq<char>, n: int)
    requires
        0 <= n <= a.len(),
        n <= b.len(),
        forall|k: int| 0 <= k < n ==> #[trigger] a[k] == b[k],
        n < a.len() && n < b.len() ==> a[n] != b[n],
    ensures
        n < a.len() && n < b.len() ==> text_before(a, b) == (a[n] < b[n]),
        n == a.len() ==> text_before(a, b) == (a.len() < b.len()),
        n == b.len() ==> !text_before(a, b),
    decreases n,
{
    if n > 0 {
        assert(a[0] == b[0]);
        texts_are_ordered_by_their_first_difference(a.drop_first(), b.drop_first(), n - 1);
    }
}

/// The length of a text in bytes is that of its UTF-8 form.
pub proof fn lengths_in_bytes(s: Seq<char>)
    ensures
        byte_len(s) == encode_utf8(s).len(),
{
}

} // verus!
