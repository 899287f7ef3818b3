//! Stable sorting, and sets of texts in order.
use vstd::prelude::*;

use crate::search::{comes_before, lemma_text_before_total, lemma_text_before_trans, same_text, text_before};

verus! {

// ── Stable sorting ───────────────────────────────────────────────────────────

/// `x` put into `s`, behind everything that may precede it.
pub open spec fn insert_by<A>(s: Seq<A>, x: A, le: spec_fn(A, A) -> bool) -> Seq<A>
    decreases s.len(),
{
    if s.len() > 0 && !le(s.last(), x) {
        insert_by(s.drop_last(), x, le).push(s.last())
    } else {
        s.push(x)
    }
}

/// `s` in the order `le`; what `le` holds equal stays in the order of `s`.
pub open spec fn sorted_by<A>(s: Seq<A>, le: spec_fn(A, A) -> bool) -> Seq<A>
    decreases s.len(),
{
    if s.len() == 0 {
        s
    } else {
        insert_by(sorted_by(s.drop_last(), le), s.last(), le)
    }
}

/// A relation by which any two values can be put in order.
pub open spec fn is_order<A>(le: spec_fn(A, A) -> bool) -> bool {
    &&& forall|a: A, b: A| #[trigger] le(a, b) || le(b, a)
    &&& forall|a: A, b: A, c: A| #[trigger] le(a, b) && #[trigger] le(b, c) ==> le(a, c)
}

/// Each element of `s` may precede every later one.
pub open spec fn in_order<A>(s: Seq<A>, le: spec_fn(A, A) -> bool) -> bool {
    forall|i: int, j: int| 0 <= i < j < s.len() ==> le(#[trigger] s[i], #[trigger] s[j])
}

/// The first `k`, or all if there are fewer.
pub open spec fn first_k<A>(s: Seq<A>, k: int) -> Seq<A> {
    if s.len() <= k {
        s
    } else {
        s.take(k)
    }
}

/// Values that can be sorted.
pub trait Ranked: DeepView + Sized {
    /// The order, on what the values stand for.
    spec fn order() -> spec_fn(Self::V, Self::V) -> bool;

    /// Whether `self` may precede `other`.
    fn may_precede(&self, other: &Self) -> (r: bool)
        ensures
            r == Self::order()(self.deep_view(), other.deep_view()),
    ;
}

/// Puts `x` into `v`, behind everything that may precede it.
fn insert_ranked<T: Ranked>(v: &mut Vec<T>, x: T)
    ensures
        final(v).deep_view() == insert_by(old(v).deep_view(), x.deep_view(), T::order()),
{
    let mut i: usize = v.len();
    let ghost before = v.deep_view();
    proof {
        assert(before.take(i as int) =~= before);
        assert(before.skip(i as int) =~= Seq::<T::V>::empty());
        assert(insert_by(before, x.deep_view(), T::order()) =~= insert_by(
            before.take(i as int),
            x.deep_view(),
            T::order(),
        ) + before.skip(i as int));
    }
    while i > 0 && !v[i - 1].may_precede(&x)
        invariant
            i <= v@.len(),
            before == v.deep_view(),
            insert_by(before, x.deep_view(), T::order()) == insert_by(
                before.take(i as int),
                x.deep_view(),
                T::order(),
            ) + before.skip(i as int),
        decreases i,
    {
        proof {
            let p = before.take(i as int);
            assert(p.last() == before[i - 1]);
            assert(p.drop_last() =~= before.take(i - 1));
            let q = insert_by(before.take(i - 1), x.deep_view(), T::order());
            assert(q.push(before[i - 1]) + before.skip(i as int) =~= q + before.skip(i - 1));
        }
        i = i - 1;
    }
    let ghost xv = x.deep_view();
    v.insert(i, x);
    proof {
        assert(insert_by(before.take(i as int), xv, T::order()) == before.take(i as int).push(xv));
        assert(v.deep_view() =~= before.take(i as int).push(xv) + before.skip(i as int));
    }
}

/// Sorts stably.
pub fn stable_sort<T: Ranked>(v: Vec<T>) -> (r: Vec<T>)
    ensures
        r.deep_view() == sorted_by(v.deep_view(), T::order()),
{
    let ghost all = v.deep_view();
    let mut r: Vec<T> = Vec::new();
    proof {
        assert(all.take(0) =~= Seq::<T::V>::empty());
        assert(r.deep_view() =~= Seq::<T::V>::empty());
    }
    for x in it: v
        invariant
            all.len() == it.seq().len(),
            forall|k: int| 0 <= k < all.len() ==> all[k] == (#[trigger] it.seq()[k]).deep_view(),
            r.deep_view() == sorted_by(all.take(it.index()), T::order()),
    {
        proof {
            let next = all.take(it.index() + 1);
            assert(next.drop_last() =~= all.take(it.index()));
            assert(next.last() == x.deep_view());
        }
        insert_ranked(&mut r, x);
    }
    proof {
        assert(all.take(all.len() as int) =~= all);
    }
    r
}

/// Putting a value in keeps an ordered sequence ordered.
proof fn lemma_insert_in_order<A>(s: Seq<A>, x: A, le: spec_fn(A, A) -> bool)
    requires
        is_order(le),
        in_order(s, le),
    ensures
        in_order(insert_by(s, x, le), le),
        insert_by(s, x, le).to_multiset() == s.to_multiset().insert(x),
        forall|i: int|
            0 <= i < insert_by(s, x, le).len() ==> s.contains(#[trigger] insert_by(s, x, le)[i])
                || insert_by(s, x, le)[i] == x,
    decreases s.len(),
{
    broadcast use vstd::seq_lib::group_to_multiset_ensures;

    if s.len() > 0 && !le(s.last(), x) {
        let d = s.drop_last();
        lemma_insert_in_order(d, x, le);
        let p = insert_by(d, x, le);
        let r = p.push(s.last());
        assert forall|i: int, j: int| 0 <= i < j < r.len() implies le(
            #[trigger] r[i],
            #[trigger] r[j],
        ) by {
            if j == p.len() {
                if d.contains(p[i]) {
                    let k = choose|k: int| 0 <= k < d.len() && d[k] == p[i];
                    assert(s[k] == p[i]);
                    assert(le(s[k], s[s.len() - 1]));
                }
            }
        }
        assert forall|i: int| 0 <= i < r.len() implies s.contains(#[trigger] r[i]) || r[i] == x by {
            if i < p.len() {
                if d.contains(p[i]) {
                    let k = choose|k: int| 0 <= k < d.len() && d[k] == p[i];
                    assert(s[k] == r[i]);
                }
            } else {
                assert(s[s.len() - 1] == r[i]);
            }
        }
        assert(s =~= d.push(s.last()));
        assert(r.to_multiset() =~= s.to_multiset().insert(x));
    } else {
        let r = s.push(x);
        assert forall|i: int, j: int| 0 <= i < j < r.len() implies le(
            #[trigger] r[i],
            #[trigger] r[j],
        ) by {
            if j == s.len() {
                if i < s.len() - 1 {
                    assert(le(s[i], s[s.len() - 1]));
                }
            }
        }
        assert forall|i: int| 0 <= i < r.len() implies s.contains(#[trigger] r[i]) || r[i] == x by {
            if i < s.len() {
                assert(s[i] == r[i]);
            }
        }
    }
}

/// Sorting yields the same elements, each as often, in order.
pub proof fn sorting_orders_and_keeps<A>(s: Seq<A>, le: spec_fn(A, A) -> bool)
    requires
        is_order(le),
    ensures
        in_order(sorted_by(s, le), le),
        sorted_by(s, le).to_multiset() == s.to_multiset(),
        sorted_by(s, le).len() == s.len(),
    decreases s.len(),
{
    broadcast use vstd::seq_lib::group_to_multiset_ensures;

    if s.len() > 0 {
        let d = s.drop_last();
        sorting_orders_and_keeps(d, le);
        lemma_insert_in_order(sorted_by(d, le), s.last(), le);
        assert(s =~= d.push(s.last()));
    }
    assert(sorted_by(s, le).len() == sorted_by(s, le).to_multiset().len());
    assert(s.len() == s.to_multiset().len());
}

/// Sorting what is in order changes nothing.
pub proof fn sorting_keeps_what_is_in_order<A>(s: Seq<A>, le: spec_fn(A, A) -> bool)
    requires
        in_order(s, le),
    ensures
        sorted_by(s, le) == s,
    decreases s.len(),
{
    if s.len() > 0 {
        let d = s.drop_last();
        sorting_keeps_what_is_in_order(d, le);
        if d.len() > 0 {
            assert(le(s[d.len() - 1], s[s.len() - 1]));
        }
        assert(d.push(s.last()) =~= s);
    }
}

proof fn lemma_filter_push<A>(s: Seq<A>, y: A, p: spec_fn(A) -> bool)
    ensures
        s.push(y).filter(p) == if p(y) {
            s.filter(p).push(y)
        } else {
            s.filter(p)
        },
{
    reveal(Seq::filter);
    assert(s.push(y).drop_last() =~= s);
}

proof fn lemma_insert_ties<A>(
    t: Seq<A>,
    y: A,
    x: A,
    le: spec_fn(A, A) -> bool,
    p: spec_fn(A) -> bool,
)
    requires
        is_order(le),
        forall|z: A| #[trigger] p(z) <==> le(x, z) && le(z, x),
    ensures
        insert_by(t, y, le).filter(p) == t.push(y).filter(p),
    decreases t.len(),
{
    if t.len() > 0 && !le(t.last(), y) {
        let d = t.drop_last();
        lemma_insert_ties(d, y, x, le, p);
        lemma_filter_push(insert_by(d, y, le), t.last(), p);
        lemma_filter_push(d, y, p);
        lemma_filter_push(d, t.last(), p);
        lemma_filter_push(t, y, p);
        assert(d.push(t.last()) =~= t);
        if p(t.last()) && p(y) {
            assert(le(t.last(), x) && le(x, y));
        }
    }
}

/// Sorting is stable: the elements that the order holds equal to `x` stay in the
/// order in which they were.
pub proof fn sorting_keeps_ties_in_place<A>(s: Seq<A>, le: spec_fn(A, A) -> bool, x: A)
    requires
        is_order(le),
    ensures
        sorted_by(s, le).filter(|z: A| le(x, z) && le(z, x)) == s.filter(
            |z: A| le(x, z) && le(z, x),
        ),
    decreases s.len(),
{
    let p = |z: A| le(x, z) && le(z, x);
    if s.len() > 0 {
        let d = s.drop_last();
        let r = sorted_by(d, le);
        sorting_keeps_ties_in_place(d, le, x);
        lemma_insert_ties(r, s.last(), x, le, p);
        lemma_filter_push(r, s.last(), p);
        lemma_filter_push(d, s.last(), p);
        assert(d.push(s.last()) =~= s);
    }
}

// ── Sets of texts ────────────────────────────────────────────────────────────

/// `x` put into the increasing sequence `s`, unless it is there.
pub open spec fn insert_text(s: Seq<Seq<char>>, x: Seq<char>) -> Seq<Seq<char>>
    decreases s.len(),
{
    if s.len() == 0 || text_before(s.last(), x) {
        s.push(x)
    } else if s.last() == x {
        s
    } else {
        insert_text(s.drop_last(), x).push(s.last())
    }
}

/// The texts of `s`, each once, in increasing order.
pub open spec fn text_set(s: Seq<Seq<char>>) -> Seq<Seq<char>>
    decreases s.len(),
{
    if s.len() == 0 {
        s
    } else {
        insert_text(text_set(s.drop_last()), s.last())
    }
}

/// Each text comes before every later one.
pub open spec fn increasing(s: Seq<Seq<char>>) -> bool {
    forall|i: int, j: int|
        0 <= i < j < s.len() ==> text_before(#[trigger] s[i], #[trigger] s[j])
}

fn insert_into_set(v: &mut Vec<String>, x: String)
    ensures
        final(v).deep_view() == insert_text(old(v).deep_view(), x@),
{
    let mut i: usize = v.len();
    let ghost before = v.deep_view();
    proof {
        assert(before.take(i as int) =~= before);
        assert(before.skip(i as int) =~= Seq::<Seq<char>>::empty());
        assert(insert_text(before, x@) =~= insert_text(before.take(i as int), x@) + before.skip(
            i as int,
        ));
    }
    while i > 0 && !comes_before(v[i - 1].as_str(), x.as_str())
        invariant
            i <= v@.len(),
            before == v.deep_view(),
            insert_text(before, x@) == insert_text(before.take(i as int), x@) + before.skip(
                i as int,
            ),
        decreases i,
    {
        proof {
            let p = before.take(i as int);
            assert(p.last() == before[i - 1]);
            assert(p.drop_last() =~= before.take(i - 1));
            assert(before[i - 1] == v@[i - 1]@);
            if before[i - 1] == x@ {
                assert(before.take(i as int) + before.skip(i as int) =~= before);
            } else {
                let q = insert_text(before.take(i - 1), x@);
                assert(q.push(before[i - 1]) + before.skip(i as int) =~= q + before.skip(i - 1));
            }
        }
        if same_text(v[i - 1].as_str(), x.as_str()) {
            return;
        }
        i = i - 1;
    }
    let ghost xv = x@;
    v.insert(i, x);
    proof {
        assert(insert_text(before.take(i as int), xv) == before.take(i as int).push(xv));
        assert(v.deep_view() =~= before.take(i as int).push(xv) + before.skip(i as int));
    }
}

/// The texts of `v`, each once, in increasing order.
pub fn set_of_texts(v: &[String]) -> (r: Vec<String>)
    ensures
        r.deep_view() == text_set(v.deep_view()),
{
    let ghost all = v.deep_view();
    let mut r: Vec<String> = Vec::new();
    let mut i: usize = 0;
    proof {
        assert(all.take(0) =~= Seq::<Seq<char>>::empty());
        assert(r.deep_view() =~= Seq::<Seq<char>>::empty());
    }
    while i < v.len()
        invariant
            i <= v@.len(),
            all == v.deep_view(),
            all.len() == v@.len(),
            r.deep_view() == text_set(all.take(i as int)),
        decreases v@.len() - i,
    {
        proof {
            let next = all.take(i + 1);
            assert(next.drop_last() =~= all.take(i as int));
            assert(next.last() == v@[i as int]@);
        }
        insert_into_set(&mut r, v[i].clone());
        i = i + 1;
    }
    proof {
        assert(all.take(i as int) =~= all);
    }
    r
}

proof fn lemma_insert_text(s: Seq<Seq<char>>, x: Seq<char>)
    requires
        increasing(s),
    ensures
        increasing(insert_text(s, x)),
        forall|t: Seq<char>| #[trigger]
            insert_text(s, x).contains(t) <==> s.contains(t) || t == x,
    decreases s.len(),
{
    let r = insert_text(s, x);
    if s.len() == 0 || text_before(s.last(), x) {
        assert forall|i: int, j: int| 0 <= i < j < r.len() implies text_before(
            #[trigger] r[i],
            #[trigger] r[j],
        ) by {
            if j == s.len() && i < s.len() - 1 {
                lemma_text_before_trans(s[i], s[s.len() - 1], x);
            }
        }
        assert forall|t: Seq<char>| #[trigger] r.contains(t) <==> s.contains(t) || t == x by {
            if s.contains(t) {
                let k = choose|k: int| 0 <= k < s.len() && s[k] == t;
                assert(r[k] == t);
            }
            if t == x {
                assert(r[s.len() as int] == x);
            }
        }
    } else if s.last() == x {
        assert(s[s.len() - 1] == x);
    } else {
        let d = s.drop_last();
        let p = insert_text(d, x);
        lemma_insert_text(d, x);
        lemma_text_before_total(s.last(), x);
        assert forall|i: int, j: int| 0 <= i < j < r.len() implies text_before(
            #[trigger] r[i],
            #[trigger] r[j],
        ) by {
            if j == p.len() {
                assert(p.contains(p[i]));
                if p[i] != x {
                    let k = choose|k: int| 0 <= k < d.len() && d[k] == p[i];
                    assert(s[k] == p[i]);
                }
            }
        }
        assert forall|t: Seq<char>| #[trigger] r.contains(t) <==> s.contains(t) || t == x by {
            if p.contains(t) {
                let k = choose|k: int| 0 <= k < p.len() && p[k] == t;
                assert(r[k] == t);
            }
            if d.contains(t) {
                let k = choose|k: int| 0 <= k < d.len() && d[k] == t;
                assert(s[k] == t);
            }
            if s.contains(t) {
                let k = choose|k: int| 0 <= k < s.len() && s[k] == t;
                if k < d.len() {
                    assert(d[k] == t);
                } else {
                    assert(r[p.len() as int] == t);
                }
            }
            if r.contains(t) {
                let k = choose|k: int| 0 <= k < r.len() && r[k] == t;
                if k < p.len() {
                    assert(p[k] == t);
                } else {
                    assert(s[s.len() - 1] == t);
                }
            }
        }
    }
}

/// A set of texts is strictly increasing and holds exactly the texts it was
/// made from.
pub proof fn text_set_is_a_set(s: Seq<Seq<char>>)
    ensures
        increasing(text_set(s)),
        forall|t: Seq<char>| #[trigger] text_set(s).contains(t) <==> s.contains(t),
    decreases s.len(),
{
    if s.len() > 0 {
        let d = s.drop_last();
        text_set_is_a_set(d);
        lemma_insert_text(text_set(d), s.last());
        assert forall|t: Seq<char>| #[trigger] text_set(s).contains(t) <==> s.contains(t) by {
            assert(text_set(s).contains(t) <==> text_set(d).contains(t) || t == s.last());
            if s.contains(t) {
                let k = choose|k: int| 0 <= k < s.len() && s[k] == t;
                if k < d.len() {
                    assert(d[k] == t);
                }
            }
            if d.contains(t) {
                let k = choose|k: int| 0 <= k < d.len() && d[k] == t;
                assert(s[k] == t);
            }
            if t == s.last() {
                assert(s[s.len() - 1] == t);
            }
        }
    }
}

} // verus!
