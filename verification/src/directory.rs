//! Changes to the directory, taken set-wise.
//!
//! Publishing an endpoint at a set of paths and taking a set of
//! advertisements out of the directory are each one map. Publishing or
//! unpublishing path by path, in any order, arrives there; the lemmas of this
//! module say so.

use vstd::prelude::*;
use crate::endpoint::Endpoint;
use crate::path::is_absolute;
use crate::seqs::{
    lemma_filter_agree, lemma_filter_all, lemma_filter_members, lemma_filter_no_duplicates,
    lemma_filter_twice, lemma_remove_is_filter,
};
use crate::store::{dir_publish, dir_unpublish, dir_wf, endpoints_at, owned};

verus! {

/// The directory after `e` is published at each path of `ps`.
pub open spec fn dir_with(dir: Map<Seq<u8>, Seq<Endpoint>>, e: Endpoint, ps: Set<Seq<u8>>) -> Map<
    Seq<u8>,
    Seq<Endpoint>,
> {
    Map::new(
        |p: Seq<u8>| dir.contains_key(p) || ps.contains(p),
        |p: Seq<u8>|
            if ps.contains(p) && !endpoints_at(dir, p).contains(e) {
                endpoints_at(dir, p).push(e)
            } else {
                dir[p]
            },
    )
}

/// The endpoints of `eps`, standing at path `p`, whose advertisement is not
/// in `gone`; they keep their order.
pub open spec fn kept(eps: Seq<Endpoint>, p: Seq<u8>, gone: Set<(Seq<u8>, Endpoint)>) -> Seq<
    Endpoint,
> {
    eps.filter(|e: Endpoint| !gone.contains((p, e)))
}

/// The directory after the advertisements `gone` (pairs of a path and an
/// endpoint) are taken out. A path that is left without endpoints leaves
/// the directory.
pub open spec fn dir_without(
    dir: Map<Seq<u8>, Seq<Endpoint>>,
    gone: Set<(Seq<u8>, Endpoint)>,
) -> Map<Seq<u8>, Seq<Endpoint>> {
    Map::new(
        |p: Seq<u8>| dir.contains_key(p) && kept(dir[p], p, gone).len() > 0,
        |p: Seq<u8>| kept(dir[p], p, gone),
    )
}

/// The advertisements of `e` at the paths `ps`.
pub open spec fn adverts(e: Endpoint, ps: Set<Seq<u8>>) -> Set<(Seq<u8>, Endpoint)> {
    Set::new(|a: (Seq<u8>, Endpoint)| a.1 == e && ps.contains(a.0))
}

/// Every path of `ps` is absolute.
pub open spec fn all_absolute(ps: Set<Seq<u8>>) -> bool {
    forall|p: Seq<u8>| ps.contains(p) ==> is_absolute(p)
}

/// Publishing at one path is publishing at the set of that path.
pub proof fn lemma_publish_is_with(dir: Map<Seq<u8>, Seq<Endpoint>>, p: Seq<u8>, e: Endpoint)
    ensures
        dir_publish(dir, p, e) == dir_with(dir, e, set![p]),
{
    assert(dir_publish(dir, p, e) =~= dir_with(dir, e, set![p]));
}

/// Publishing at two sets of paths, one after the other, is publishing at
/// their union.
pub proof fn lemma_with_with(
    dir: Map<Seq<u8>, Seq<Endpoint>>,
    e: Endpoint,
    first: Set<Seq<u8>>,
    second: Set<Seq<u8>>,
)
    ensures
        dir_with(dir_with(dir, e, first), e, second) == dir_with(dir, e, first.union(second)),
{
    let mid = dir_with(dir, e, first);
    let lhs = dir_with(mid, e, second);
    let rhs = dir_with(dir, e, first.union(second));
    assert forall|p: Seq<u8>| lhs.contains_key(p) implies #[trigger] lhs[p] == rhs[p] by {
        if first.contains(p) {
            if !endpoints_at(dir, p).contains(e) {
                let pushed = endpoints_at(dir, p).push(e);
                assert(pushed[pushed.len() - 1] == e);
            }
            assert(endpoints_at(mid, p).contains(e));
        }
    }
    assert(lhs =~= rhs);
}

/// Publishing absolute paths keeps the directory well-formed.
pub proof fn lemma_with_wf(dir: Map<Seq<u8>, Seq<Endpoint>>, e: Endpoint, ps: Set<Seq<u8>>)
    requires
        dir_wf(dir),
        all_absolute(ps),
    ensures
        dir_wf(dir_with(dir, e, ps)),
{
    let r = dir_with(dir, e, ps);
    assert forall|p: Seq<u8>| #[trigger] r.contains_key(p) implies is_absolute(p) && r[p].len() > 0
        && r[p].no_duplicates() by {
        if ps.contains(p) && !endpoints_at(dir, p).contains(e) {
            let old_eps = endpoints_at(dir, p);
            if dir.contains_key(p) {
                assert(old_eps.no_duplicates());
            }
            assert forall|i: int, j: int|
                0 <= i < r[p].len() && 0 <= j < r[p].len() && i != j implies r[p][i]
                != r[p][j] by {
                if i < old_eps.len() {
                    assert(old_eps.contains(r[p][i]));
                }
                if j < old_eps.len() {
                    assert(old_eps.contains(r[p][j]));
                }
            }
        }
    }
}

/// The paths that an endpoint holds after a publication: those that it
/// held, and for the publisher those published too.
pub proof fn lemma_owned_with(
    dir: Map<Seq<u8>, Seq<Endpoint>>,
    e: Endpoint,
    ps: Set<Seq<u8>>,
    x: Endpoint,
)
    ensures
        x == e ==> owned(dir_with(dir, e, ps), x) == owned(dir, e).union(ps),
        x != e ==> owned(dir_with(dir, e, ps), x) == owned(dir, x),
{
    let r = dir_with(dir, e, ps);
    assert forall|p: Seq<u8>|
        owned(r, x).contains(p) == (if x == e {
            owned(dir, e).union(ps).contains(p)
        } else {
            owned(dir, x).contains(p)
        }) by {
        if ps.contains(p) && !endpoints_at(dir, p).contains(e) {
            let old_eps = endpoints_at(dir, p);
            let new_eps = old_eps.push(e);
            assert(new_eps[new_eps.len() - 1] == e);
            if old_eps.contains(x) {
                let i = choose|i: int| 0 <= i < old_eps.len() && old_eps[i] == x;
                assert(new_eps[i] == x);
            }
            if new_eps.contains(x) && x != e {
                let i = choose|i: int| 0 <= i < new_eps.len() && new_eps[i] == x;
                assert(old_eps[i] == x);
            }
        }
    }
    if x == e {
        assert(owned(r, x) =~= owned(dir, e).union(ps));
    } else {
        assert(owned(r, x) =~= owned(dir, x));
    }
}

/// Unpublishing at one path is taking out one advertisement.
pub proof fn lemma_unpublish_is_without(
    dir: Map<Seq<u8>, Seq<Endpoint>>,
    p: Seq<u8>,
    e: Endpoint,
)
    requires
        dir_wf(dir),
    ensures
        dir_unpublish(dir, p, e) == dir_without(dir, set![(p, e)]),
{
    let gone = set![(p, e)];
    let lhs = dir_unpublish(dir, p, e);
    let rhs = dir_without(dir, gone);
    assert forall|q: Seq<u8>| dir.contains_key(q) implies (if q == p && dir[q].contains(e) {
        kept(dir[q], q, gone) == dir[q].remove(dir[q].index_of(e))
    } else {
        kept(dir[q], q, gone) == dir[q]
    }) by {
        let f = |x: Endpoint| !gone.contains((q, x));
        if q == p && dir[q].contains(e) {
            let k = dir[q].index_of(e);
            lemma_remove_is_filter(dir[q], k);
            lemma_filter_agree(dir[q], f, |x: Endpoint| x != dir[q][k]);
        } else {
            assert forall|i: int| 0 <= i < dir[q].len() implies f(#[trigger] dir[q][i]) by {
                if q == p && dir[q][i] == e {
                    assert(dir[q].contains(e));
                }
            }
            lemma_filter_all(dir[q], f);
        }
    }
    assert(lhs =~= rhs);
}

/// Taking out two sets of advertisements, one after the other, is taking
/// out their union.
pub proof fn lemma_without_without(
    dir: Map<Seq<u8>, Seq<Endpoint>>,
    g1: Set<(Seq<u8>, Endpoint)>,
    g2: Set<(Seq<u8>, Endpoint)>,
)
    ensures
        dir_without(dir_without(dir, g1), g2) == dir_without(dir, g1.union(g2)),
{
    let mid = dir_without(dir, g1);
    let lhs = dir_without(mid, g2);
    let rhs = dir_without(dir, g1.union(g2));
    assert forall|p: Seq<u8>| dir.contains_key(p) implies kept(kept(dir[p], p, g1), p, g2)
        == kept(dir[p], p, g1.union(g2)) by {
        let f1 = |x: Endpoint| !g1.contains((p, x));
        let f2 = |x: Endpoint| !g2.contains((p, x));
        let f12 = |x: Endpoint| !g1.union(g2).contains((p, x));
        lemma_filter_twice(dir[p], f1, f2);
        lemma_filter_agree(dir[p], |x: Endpoint| f1(x) && f2(x), f12);
    }
    assert forall|p: Seq<u8>| lhs.contains_key(p) == rhs.contains_key(p) by {
        if dir.contains_key(p) && kept(dir[p], p, g1).len() == 0 {
            reveal(Seq::filter);
            assert(kept(kept(dir[p], p, g1), p, g2).len() == 0);
        }
    }
    assert(lhs =~= rhs);
}

/// Only the advertisements that the directory holds matter to what is
/// taken out.
pub proof fn lemma_without_agree(
    dir: Map<Seq<u8>, Seq<Endpoint>>,
    g1: Set<(Seq<u8>, Endpoint)>,
    g2: Set<(Seq<u8>, Endpoint)>,
)
    requires
        forall|p: Seq<u8>, e: Endpoint|
            dir.contains_key(p) && dir[p].contains(e) ==> (#[trigger] g1.contains((p, e))
                == g2.contains((p, e))),
    ensures
        dir_without(dir, g1) == dir_without(dir, g2),
{
    assert forall|p: Seq<u8>| dir.contains_key(p) implies kept(dir[p], p, g1) == kept(
        dir[p],
        p,
        g2,
    ) by {
        let f1 = |x: Endpoint| !g1.contains((p, x));
        let f2 = |x: Endpoint| !g2.contains((p, x));
        assert forall|i: int| 0 <= i < dir[p].len() implies f1(#[trigger] dir[p][i]) == f2(
            dir[p][i],
        ) by {
            assert(dir[p].contains(dir[p][i]));
        }
        lemma_filter_agree(dir[p], f1, f2);
    }
    assert(dir_without(dir, g1) =~= dir_without(dir, g2));
}

/// Taking nothing out, or publishing nowhere, changes nothing.
pub proof fn lemma_nothing(dir: Map<Seq<u8>, Seq<Endpoint>>, e: Endpoint)
    requires
        dir_wf(dir),
    ensures
        dir_with(dir, e, Set::empty()) == dir,
        dir_without(dir, Set::empty()) == dir,
        dir_without(dir, adverts(e, Set::empty())) == dir,
{
    assert(dir_with(dir, e, Set::empty()) =~= dir);
    let none = Set::<(Seq<u8>, Endpoint)>::empty();
    assert forall|p: Seq<u8>| dir.contains_key(p) implies kept(dir[p], p, none) == dir[p] by {
        lemma_filter_all(dir[p], |x: Endpoint| !none.contains((p, x)));
    }
    assert(dir_without(dir, none) =~= dir);
    assert(adverts(e, Set::empty()) =~= none);
}

/// Taking advertisements out keeps the directory well-formed.
pub proof fn lemma_without_wf(dir: Map<Seq<u8>, Seq<Endpoint>>, gone: Set<(Seq<u8>, Endpoint)>)
    requires
        dir_wf(dir),
    ensures
        dir_wf(dir_without(dir, gone)),
{
    let r = dir_without(dir, gone);
    assert forall|p: Seq<u8>| #[trigger] r.contains_key(p) implies is_absolute(p) && r[p].len() > 0
        && r[p].no_duplicates() by {
        lemma_filter_no_duplicates(dir[p], |e: Endpoint| !gone.contains((p, e)));
    }
}

/// The endpoints at a path after advertisements are taken out: those that
/// stood there and whose advertisement is not among them.
pub proof fn lemma_without_members(
    dir: Map<Seq<u8>, Seq<Endpoint>>,
    gone: Set<(Seq<u8>, Endpoint)>,
    p: Seq<u8>,
    x: Endpoint,
)
    ensures
        endpoints_at(dir_without(dir, gone), p).contains(x) <==> endpoints_at(dir, p).contains(x)
            && !gone.contains((p, x)),
        endpoints_at(dir_without(dir, gone), p) == kept(endpoints_at(dir, p), p, gone),
{
    let f = |e: Endpoint| !gone.contains((p, e));
    lemma_filter_members(endpoints_at(dir, p), f);
    if !dir.contains_key(p) {
        reveal(Seq::filter);
        assert(kept(Seq::<Endpoint>::empty(), p, gone) =~= Seq::<Endpoint>::empty());
    } else if kept(dir[p], p, gone).len() == 0 {
        assert(kept(dir[p], p, gone) =~= Seq::<Endpoint>::empty());
    }
    assert(endpoints_at(dir_without(dir, gone), p) == kept(endpoints_at(dir, p), p, gone));
}

/// The paths that an endpoint holds after advertisements are taken out.
pub proof fn lemma_owned_without(
    dir: Map<Seq<u8>, Seq<Endpoint>>,
    gone: Set<(Seq<u8>, Endpoint)>,
    x: Endpoint,
)
    ensures
        owned(dir_without(dir, gone), x) == Set::new(
            |p: Seq<u8>| owned(dir, x).contains(p) && !gone.contains((p, x)),
        ),
{
    let r = dir_without(dir, gone);
    let want = Set::new(|p: Seq<u8>| owned(dir, x).contains(p) && !gone.contains((p, x)));
    assert forall|p: Seq<u8>| owned(r, x).contains(p) == want.contains(p) by {
        lemma_without_members(dir, gone, p, x);
        if r.contains_key(p) && r[p].contains(x) {
            assert(endpoints_at(r, p).contains(x));
        }
        if want.contains(p) {
            assert(endpoints_at(dir, p).contains(x));
            assert(endpoints_at(r, p).contains(x));
        }
    }
    assert(owned(r, x) =~= want);
}

} // verus!
