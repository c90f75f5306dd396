//! Facts about filtered sequences.

use vstd::prelude::*;

verus! {

/// A filter that every element passes keeps the sequence as it is.
pub proof fn lemma_filter_all<A>(s: Seq<A>, f: spec_fn(A) -> bool)
    requires
        forall|i: int| 0 <= i < s.len() ==> f(#[trigger] s[i]),
    ensures
        s.filter(f) == s,
    decreases s.len(),
{
    reveal(Seq::filter);
    if s.len() > 0 {
        lemma_filter_all(s.drop_last(), f);
        assert(s.drop_last().push(s.last()) =~= s);
    }
}

/// Two filters that agree on the elements of a sequence keep the same ones.
pub proof fn lemma_filter_agree<A>(s: Seq<A>, f: spec_fn(A) -> bool, g: spec_fn(A) -> bool)
    requires
        forall|i: int| 0 <= i < s.len() ==> f(#[trigger] s[i]) == g(s[i]),
    ensures
        s.filter(f) == s.filter(g),
    decreases s.len(),
{
    reveal(Seq::filter);
    if s.len() > 0 {
        lemma_filter_agree(s.drop_last(), f, g);
    }
}

/// What passes a filter was in the sequence and meets the filter, and the
/// other way round.
pub proof fn lemma_filter_members<A>(s: Seq<A>, f: spec_fn(A) -> bool)
    ensures
        forall|x: A| #[trigger] s.filter(f).contains(x) <==> s.contains(x) && f(x),
    decreases s.len(),
{
    reveal(Seq::filter);
    if s.len() > 0 {
        let t = s.drop_last();
        lemma_filter_members(t, f);
        assert forall|x: A| #[trigger] s.filter(f).contains(x) <==> s.contains(x) && f(x) by {
            let r = s.filter(f);
            if r.contains(x) {
                let i = choose|i: int| 0 <= i < r.len() && r[i] == x;
                if f(s.last()) && i == r.len() - 1 {
                    assert(s[s.len() - 1] == x);
                } else {
                    assert(t.filter(f)[i] == x);
                    assert(t.filter(f).contains(x));
                    let j = choose|j: int| 0 <= j < t.len() && t[j] == x;
                    assert(s[j] == x);
                }
            }
            if s.contains(x) && f(x) {
                let j = choose|j: int| 0 <= j < s.len() && s[j] == x;
                if j == s.len() - 1 {
                    assert(r[r.len() - 1] == x);
                } else {
                    assert(t[j] == x);
                    assert(t.contains(x));
                    assert(t.filter(f).contains(x));
                    let i = choose|i: int| 0 <= i < t.filter(f).len() && t.filter(f)[i] == x;
                    assert(r[i] == x);
                }
            }
        }
    }
}

/// Filtering keeps a sequence free of duplicates.
pub proof fn lemma_filter_no_duplicates<A>(s: Seq<A>, f: spec_fn(A) -> bool)
    requires
        s.no_duplicates(),
    ensures
        s.filter(f).no_duplicates(),
    decreases s.len(),
{
    reveal(Seq::filter);
    if s.len() > 0 {
        let t = s.drop_last();
        lemma_filter_no_duplicates(t, f);
        lemma_filter_members(t, f);
        let r = s.filter(f);
        if f(s.last()) {
            assert forall|i: int, j: int|
                0 <= i < r.len() && 0 <= j < r.len() && i != j implies r[i] != r[j] by {
                let n = r.len() - 1;
                if i < n && j < n {
                    assert(r[i] == t.filter(f)[i] && r[j] == t.filter(f)[j]);
                } else {
                    let k = if i < n { i } else { j };
                    assert(t.filter(f)[k] == r[k]);
                    assert(t.filter(f).contains(r[k]));
                    if r[k] == s.last() {
                        let m = choose|m: int| 0 <= m < t.len() && t[m] == r[k];
                        assert(s[m] == s[s.len() - 1]);
                    }
                }
            }
        }
    }
}

/// Filtering twice is filtering once by both.
pub proof fn lemma_filter_twice<A>(s: Seq<A>, f: spec_fn(A) -> bool, g: spec_fn(A) -> bool)
    ensures
        s.filter(f).filter(g) == s.filter(|x: A| f(x) && g(x)),
    decreases s.len(),
{
    reveal(Seq::filter);
    let h = |x: A| f(x) && g(x);
    if s.len() > 0 {
        let t = s.drop_last();
        lemma_filter_twice(t, f, g);
        if f(s.last()) {
            let u = t.filter(f).push(s.last());
            assert(u.drop_last() =~= t.filter(f));
            assert(u.last() == s.last());
        }
    }
}

/// In a sequence without duplicates, taking out the element at an index is
/// filtering out its value.
pub proof fn lemma_remove_is_filter<A>(s: Seq<A>, k: int)
    requires
        s.no_duplicates(),
        0 <= k < s.len(),
    ensures
        s.remove(k) == s.filter(|x: A| x != s[k]),
    decreases s.len(),
{
    reveal(Seq::filter);
    let e = s[k];
    let f = |x: A| x != e;
    let t = s.drop_last();
    if k == s.len() - 1 {
        assert forall|i: int| 0 <= i < t.len() implies f(#[trigger] t[i]) by {
            assert(t[i] == s[i]);
        }
        lemma_filter_all(t, f);
        assert(s.remove(k) =~= t);
    } else {
        lemma_remove_is_filter(t, k);
        assert(t[k] == e);
        assert(f(s.last()));
        assert(s.remove(k) =~= t.remove(k).push(s.last()));
    }
}

/// The elements of the first `i + 1` of a sequence are those of the first
/// `i`, and the one at index `i`.
pub proof fn lemma_take_set<A>(s: Seq<A>, i: int)
    requires
        0 <= i < s.len(),
    ensures
        s.take(i + 1).to_set() == s.take(i).to_set().insert(s[i]),
        s.take(0).to_set() == Set::<A>::empty(),
        s.take(s.len() as int) == s,
{
    let a = s.take(i + 1);
    let b = s.take(i);
    assert forall|x: A| a.to_set().contains(x) == b.to_set().insert(s[i]).contains(x) by {
        if a.contains(x) {
            let k = choose|k: int| 0 <= k < a.len() && a[k] == x;
            if k < i {
                assert(b[k] == x);
            }
        }
        if b.contains(x) {
            let k = choose|k: int| 0 <= k < b.len() && b[k] == x;
            assert(a[k] == x);
        }
        if x == s[i] {
            assert(a[i] == x);
        }
    }
    assert(a.to_set() =~= b.to_set().insert(s[i]));
    assert(s.take(0).to_set() =~= Set::<A>::empty());
    assert(s.take(s.len() as int) =~= s);
}

} // verus!
