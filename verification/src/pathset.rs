//! Ordered sets of paths: a vector of paths in strictly ascending order.

use vstd::prelude::*;
use crate::path::{
    lemma_lex_asymmetric, lemma_lex_transitive, lex_lt, order_bytes, strictly_sorted, Order, Path,
};

verus! {

/// The paths of `paths` stand in strictly ascending order.
pub open spec fn sorted_paths(paths: Seq<Path>) -> bool {
    forall|i: int, j: int|
        0 <= i < j < paths.len() ==> lex_lt((#[trigger] paths[i])@, (#[trigger] paths[j])@)
}

/// One of `paths` holds the bytes `s`.
pub open spec fn holds_path(paths: Seq<Path>, s: Seq<u8>) -> bool {
    exists|i: int| 0 <= i < paths.len() && (#[trigger] paths[i])@ == s
}

/// The byte strings that `paths` holds.
pub open spec fn path_set(paths: Seq<Path>) -> Set<Seq<u8>> {
    Set::new(|s: Seq<u8>| holds_path(paths, s))
}

/// The bytes of each path of `paths`, in the same order.
pub open spec fn path_views(paths: Seq<Path>) -> Seq<Seq<u8>> {
    paths.map_values(|p: Path| p@)
}

/// Order and membership of a sequence of paths are those of their bytes.
pub proof fn lemma_path_views(paths: Seq<Path>)
    ensures
        sorted_paths(paths) <==> strictly_sorted(path_views(paths)),
        forall|s: Seq<u8>| holds_path(paths, s) <==> path_views(paths).contains(s),
        path_set(paths) == path_views(paths).to_set(),
{
    let v = path_views(paths);
    if sorted_paths(paths) {
        assert forall|i: int, j: int| 0 <= i < j < v.len() implies lex_lt(
            #[trigger] v[i],
            #[trigger] v[j],
        ) by {
            assert(v[i] == paths[i]@ && v[j] == paths[j]@);
        }
    }
    if strictly_sorted(v) {
        assert forall|i: int, j: int| 0 <= i < j < paths.len() implies lex_lt(
            (#[trigger] paths[i])@,
            (#[trigger] paths[j])@,
        ) by {
            assert(v[i] == paths[i]@ && v[j] == paths[j]@);
        }
    }
    assert forall|s: Seq<u8>| holds_path(paths, s) <==> v.contains(s) by {
        if holds_path(paths, s) {
            let i = choose|i: int| 0 <= i < paths.len() && (#[trigger] paths[i])@ == s;
            assert(v[i] == s);
        }
        if v.contains(s) {
            let i = choose|i: int| 0 <= i < v.len() && v[i] == s;
            assert(paths[i]@ == s);
        }
    }
    assert(path_set(paths) =~= v.to_set());
}

/// A copy of each path of `paths`, in the same order.
pub fn clone_paths(paths: &Vec<Path>) -> (r: Vec<Path>)
    ensures
        path_views(r@) == path_views(paths@),
{
    let mut r: Vec<Path> = Vec::new();
    let mut i: usize = 0;
    while i < paths.len()
        invariant
            i <= paths.len(),
            r@.len() == i,
            forall|j: int| 0 <= j < i ==> (#[trigger] r@[j])@ == paths@[j]@,
        decreases paths.len() - i,
    {
        r.push(paths[i].clone());
        i += 1;
    }
    proof {
        assert(path_views(r@) =~= path_views(paths@));
    }
    r
}

/// In an ascending sequence a path stands at one index only.
pub proof fn lemma_sorted_unique(paths: Seq<Path>, i: int, j: int)
    requires
        sorted_paths(paths),
        0 <= i < paths.len(),
        0 <= j < paths.len(),
        paths[i]@ == paths[j]@,
    ensures
        i == j,
{
    if i < j {
        lemma_lex_asymmetric(paths[i]@, paths[j]@);
    } else if j < i {
        lemma_lex_asymmetric(paths[j]@, paths[i]@);
    }
}

/// The index of the first path of `paths` that does not precede `target`
/// (the number of paths, when all precede it).
pub fn lower_bound(paths: &Vec<Path>, target: &[u8]) -> (i: usize)
    requires
        sorted_paths(paths@),
    ensures
        i <= paths.len(),
        forall|j: int| 0 <= j < i ==> lex_lt((#[trigger] paths@[j])@, target@),
        forall|j: int| i <= j < paths.len() ==> !lex_lt((#[trigger] paths@[j])@, target@),
{
    let mut lo: usize = 0;
    let mut hi: usize = paths.len();
    while lo < hi
        invariant
            lo <= hi <= paths.len(),
            sorted_paths(paths@),
            forall|j: int| 0 <= j < lo ==> lex_lt((#[trigger] paths@[j])@, target@),
            forall|j: int| hi <= j < paths.len() ==> !lex_lt((#[trigger] paths@[j])@, target@),
        decreases hi - lo,
    {
        let mid = lo + (hi - lo) / 2;
        match order_bytes(paths[mid].as_bytes(), target) {
            Order::Less => {
                proof {
                    assert forall|j: int| 0 <= j < mid + 1 implies lex_lt(
                        (#[trigger] paths@[j])@,
                        target@,
                    ) by {
                        if j < mid {
                            lemma_lex_transitive(paths@[j]@, paths@[mid as int]@, target@);
                        }
                    }
                }
                lo = mid + 1;
            },
            _ => {
                proof {
                    assert forall|j: int| mid <= j < paths.len() implies !lex_lt(
                        (#[trigger] paths@[j])@,
                        target@,
                    ) by {
                        if mid < j && lex_lt(paths@[j]@, target@) {
                            lemma_lex_transitive(paths@[mid as int]@, paths@[j]@, target@);
                        }
                    }
                }
                hi = mid;
            },
        }
    }
    lo
}

/// Where `target` stands in `paths`, if it does: `lower_bound` finds it.
pub proof fn lemma_lower_bound_finds(paths: Seq<Path>, target: Seq<u8>, i: int)
    requires
        0 <= i <= paths.len(),
        forall|j: int| 0 <= j < i ==> lex_lt((#[trigger] paths[j])@, target),
        forall|j: int| i <= j < paths.len() ==> !lex_lt((#[trigger] paths[j])@, target),
        sorted_paths(paths),
    ensures
        holds_path(paths, target) <==> (i < paths.len() && paths[i]@ == target),
        forall|j: int| 0 <= j < paths.len() && (#[trigger] paths[j])@ == target ==> j == i,
{
    assert forall|j: int| 0 <= j < paths.len() && (#[trigger] paths[j])@ == target implies j
        == i by {
        if j < i {
            lemma_lex_asymmetric(paths[j]@, target);
        } else if i < j {
            assert(lex_lt(paths[i]@, paths[j]@));
        }
    }
    if holds_path(paths, target) {
        let j = choose|j: int| 0 <= j < paths.len() && (#[trigger] paths[j])@ == target;
        assert(j == i);
    }
}

/// A set of paths, kept in ascending order without duplicates.
#[derive(Debug, PartialEq, Eq)]
pub struct PathSet {
    paths: Vec<Path>,
}

impl View for PathSet {
    type V = Set<Seq<u8>>;

    closed spec fn view(&self) -> Set<Seq<u8>> {
        path_set(self.paths@)
    }
}

impl PathSet {
    /// The paths of the set, in ascending order.
    pub closed spec fn seq(&self) -> Seq<Path> {
        self.paths@
    }

    /// The representation invariant: ascending, hence free of duplicates.
    pub closed spec fn wf(&self) -> bool {
        sorted_paths(self.paths@)
    }

    /// What `seq` and the view have to do with each other.
    pub proof fn lemma_seq(&self)
        requires
            self.wf(),
        ensures
            sorted_paths(self.seq()),
            self@ == path_set(self.seq()),
    {
    }

    /// The empty set.
    pub fn new() -> (s: PathSet)
        ensures
            s.wf(),
            s@ == Set::<Seq<u8>>::empty(),
            s.seq().len() == 0,
    {
        let s = PathSet { paths: Vec::new() };
        assert(s@ =~= Set::<Seq<u8>>::empty());
        s
    }

    /// The number of paths in the set.
    pub fn len(&self) -> (n: usize)
        ensures
            n == self.seq().len(),
    {
        self.paths.len()
    }

    /// The path at index `i` of the ascending order.
    pub fn get(&self, i: usize) -> (p: &Path)
        requires
            i < self.seq().len(),
        ensures
            *p == self.seq()[i as int],
    {
        &self.paths[i]
    }

    /// Whether `p` is in the set.
    pub fn contains(&self, p: &Path) -> (b: bool)
        requires
            self.wf(),
        ensures
            b == self@.contains(p@),
    {
        let i = lower_bound(&self.paths, p.as_bytes());
        proof {
            lemma_lower_bound_finds(self.paths@, p@, i as int);
        }
        i < self.paths.len() && self.paths[i].equals(p)
    }

    /// Adds `p` to the set. Returns whether it was new.
    pub fn insert(&mut self, p: Path) -> (added: bool)
        requires
            old(self).wf(),
        ensures
            final(self).wf(),
            final(self)@ == old(self)@.insert(p@),
            added == !old(self)@.contains(p@),
    {
        let i = lower_bound(&self.paths, p.as_bytes());
        proof {
            lemma_lower_bound_finds(self.paths@, p@, i as int);
        }
        if i < self.paths.len() && self.paths[i].equals(&p) {
            assert(self@ =~= old(self)@.insert(p@));
            return false;
        }
        let ghost before = self.paths@;
        self.paths.insert(i, p);
        proof {
            lemma_insert_sorted(before, i as int, p);
            lemma_insert_set(before, i as int, p);
        }
        true
    }

    /// Takes `p` out of the set. Returns whether it was there.
    pub fn remove(&mut self, p: &Path) -> (removed: bool)
        requires
            old(self).wf(),
        ensures
            final(self).wf(),
            final(self)@ == old(self)@.remove(p@),
            removed == old(self)@.contains(p@),
    {
        let i = lower_bound(&self.paths, p.as_bytes());
        proof {
            lemma_lower_bound_finds(self.paths@, p@, i as int);
        }
        if i < self.paths.len() && self.paths[i].equals(p) {
            let ghost before = self.paths@;
            self.paths.remove(i);
            proof {
                lemma_remove_sorted(before, i as int);
                lemma_remove_set(before, i as int);
            }
            true
        } else {
            assert(self@ =~= old(self)@.remove(p@));
            false
        }
    }

    /// Adds each of `paths` to the set.
    pub fn extend(&mut self, paths: &Vec<Path>)
        requires
            old(self).wf(),
        ensures
            final(self).wf(),
            final(self)@ == old(self)@.union(path_views(paths@).to_set()),
    {
        let ghost v = path_views(paths@);
        proof {
            assert(old(self)@.union(v.take(0).to_set()) =~= old(self)@);
        }
        let mut i: usize = 0;
        while i < paths.len()
            invariant
                i <= paths.len(),
                v == path_views(paths@),
                self.wf(),
                self@ == old(self)@.union(v.take(i as int).to_set()),
            decreases paths.len() - i,
        {
            proof {
                assert(v[i as int] == paths@[i as int]@);
                crate::seqs::lemma_take_set(v, i as int);
                assert(old(self)@.union(v.take(i as int).to_set()).insert(v[i as int]) =~= old(
                    self,
                )@.union(v.take(i + 1).to_set()));
            }
            self.insert(paths[i].clone());
            i += 1;
        }
        proof {
            assert(v.take(v.len() as int) =~= v);
        }
    }

    /// Takes each of `paths` out of the set.
    pub fn subtract(&mut self, paths: &Vec<Path>)
        requires
            old(self).wf(),
        ensures
            final(self).wf(),
            final(self)@ == old(self)@.difference(path_views(paths@).to_set()),
    {
        let ghost v = path_views(paths@);
        proof {
            assert(old(self)@.difference(v.take(0).to_set()) =~= old(self)@);
        }
        let mut i: usize = 0;
        while i < paths.len()
            invariant
                i <= paths.len(),
                v == path_views(paths@),
                self.wf(),
                self@ == old(self)@.difference(v.take(i as int).to_set()),
            decreases paths.len() - i,
        {
            proof {
                assert(v[i as int] == paths@[i as int]@);
                crate::seqs::lemma_take_set(v, i as int);
                assert(old(self)@.difference(v.take(i as int).to_set()).remove(v[i as int])
                    =~= old(self)@.difference(v.take(i + 1).to_set()));
            }
            self.remove(&paths[i]);
            i += 1;
        }
        proof {
            assert(v.take(v.len() as int) =~= v);
        }
    }

    /// The paths of the set, in ascending order, each a copy.
    pub fn to_vec(&self) -> (v: Vec<Path>)
        ensures
            path_views(v@) == path_views(self.seq()),
    {
        clone_paths(&self.paths)
    }
}

/// Inserting a path where `lower_bound` puts it keeps the order.
pub proof fn lemma_insert_sorted(paths: Seq<Path>, i: int, p: Path)
    requires
        sorted_paths(paths),
        0 <= i <= paths.len(),
        forall|j: int| 0 <= j < i ==> lex_lt((#[trigger] paths[j])@, p@),
        forall|j: int| i <= j < paths.len() ==> !lex_lt((#[trigger] paths[j])@, p@),
        !holds_path(paths, p@),
    ensures
        sorted_paths(paths.insert(i, p)),
{
    let r = paths.insert(i, p);
    assert forall|a: int, b: int| 0 <= a < b < r.len() implies lex_lt(
        (#[trigger] r[a])@,
        (#[trigger] r[b])@,
    ) by {
        if b < i {
            assert(r[a] == paths[a] && r[b] == paths[b]);
        } else if b == i {
            assert(r[a] == paths[a]);
        } else if a == i {
            assert(r[b] == paths[b - 1]);
            assert(!lex_lt(paths[b - 1]@, p@));
            crate::path::lemma_lex_total(paths[b - 1]@, p@);
        } else if a < i {
            assert(r[a] == paths[a] && r[b] == paths[b - 1]);
        } else {
            assert(r[a] == paths[a - 1] && r[b] == paths[b - 1]);
        }
    }
}

/// Inserting a path adds its bytes to the set and nothing else.
pub proof fn lemma_insert_set(paths: Seq<Path>, i: int, p: Path)
    requires
        0 <= i <= paths.len(),
    ensures
        path_set(paths.insert(i, p)) == path_set(paths).insert(p@),
{
    let r = paths.insert(i, p);
    assert forall|s: Seq<u8>| path_set(r).contains(s) == path_set(paths).insert(p@).contains(
        s,
    ) by {
        if holds_path(r, s) {
            let j = choose|j: int| 0 <= j < r.len() && (#[trigger] r[j])@ == s;
            if j < i {
                assert(paths[j]@ == s);
            } else if j > i {
                assert(paths[j - 1]@ == s);
            }
        }
        if holds_path(paths, s) {
            let j = choose|j: int| 0 <= j < paths.len() && (#[trigger] paths[j])@ == s;
            if j < i {
                assert(r[j]@ == s);
            } else {
                assert(r[j + 1]@ == s);
            }
        }
        if s == p@ {
            assert(r[i]@ == s);
        }
    }
    assert(path_set(r) =~= path_set(paths).insert(p@));
}

/// Removing a path keeps the order.
pub proof fn lemma_remove_sorted(paths: Seq<Path>, i: int)
    requires
        sorted_paths(paths),
        0 <= i < paths.len(),
    ensures
        sorted_paths(paths.remove(i)),
{
    let r = paths.remove(i);
    assert forall|a: int, b: int| 0 <= a < b < r.len() implies lex_lt(
        (#[trigger] r[a])@,
        (#[trigger] r[b])@,
    ) by {
        let a0 = if a < i { a } else { a + 1 };
        let b0 = if b < i { b } else { b + 1 };
        assert(r[a] == paths[a0] && r[b] == paths[b0]);
    }
}

/// Removing a path from an ascending sequence takes its bytes out of the set
/// and nothing else.
pub proof fn lemma_remove_set(paths: Seq<Path>, i: int)
    requires
        sorted_paths(paths),
        0 <= i < paths.len(),
    ensures
        path_set(paths.remove(i)) == path_set(paths).remove(paths[i]@),
{
    let r = paths.remove(i);
    assert forall|s: Seq<u8>| path_set(r).contains(s) == path_set(paths).remove(
        paths[i]@,
    ).contains(s) by {
        if holds_path(r, s) {
            let j = choose|j: int| 0 <= j < r.len() && (#[trigger] r[j])@ == s;
            let j0 = if j < i { j } else { j + 1 };
            assert(paths[j0]@ == s);
            if s == paths[i]@ {
                lemma_sorted_unique(paths, j0, i);
            }
        }
        if holds_path(paths, s) && s != paths[i]@ {
            let j = choose|j: int| 0 <= j < paths.len() && (#[trigger] paths[j])@ == s;
            if j < i {
                assert(r[j]@ == s);
            } else {
                assert(r[j - 1]@ == s);
            }
        }
    }
    assert(path_set(r) =~= path_set(paths).remove(paths[i]@));
}

} // verus!
