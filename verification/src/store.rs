//! The path directory: for each advertised path, the endpoints that serve
//! it.
//!
//! The mathematical model of a directory is a map from the bytes of a path
//! to the sequence of its endpoints, in the order in which they were first
//! published. A path without endpoints is not in the map.

use vstd::prelude::*;
use crate::endpoint::Endpoint;
use crate::path::{
    bytes_have_prefix, dir_prefix, has_prefix, is_absolute, is_strict_descendant,
    lemma_lex_asymmetric, lemma_lex_total, lemma_prefixed_block, lemma_prefixed_not_below, lex_lt,
    Path,
};
use crate::pathset::{
    holds_path, lemma_insert_sorted, lemma_lower_bound_finds, lemma_remove_sorted,
    lemma_sorted_unique, lower_bound, path_set, sorted_paths,
};

verus! {

/// What a change does to the directory.
#[derive(Clone, Copy, Debug, PartialEq, Eq, Structural)]
pub enum Action {
    Publish,
    Unpublish,
}

/// One step of a bulk change: publish or unpublish `endpoint` at `path`.
#[derive(Debug)]
pub struct Change {
    pub path: Path,
    pub action: Action,
    pub endpoint: Endpoint,
}

/// Why the directory refuses a change.
#[derive(Clone, Copy, Debug, PartialEq, Eq, Structural)]
pub enum StoreError {
    /// The path does not begin with a separator.
    RelativePath,
}

/// The endpoints that `dir` holds for `p`: none when `p` is not in it.
pub open spec fn endpoints_at(dir: Map<Seq<u8>, Seq<Endpoint>>, p: Seq<u8>) -> Seq<Endpoint> {
    if dir.contains_key(p) {
        dir[p]
    } else {
        Seq::empty()
    }
}

/// The directory after `e` is published at `p`: `e` goes behind the
/// endpoints that were there, unless it is one of them.
pub open spec fn dir_publish(dir: Map<Seq<u8>, Seq<Endpoint>>, p: Seq<u8>, e: Endpoint) -> Map<
    Seq<u8>,
    Seq<Endpoint>,
> {
    if endpoints_at(dir, p).contains(e) {
        dir
    } else {
        dir.insert(p, endpoints_at(dir, p).push(e))
    }
}

/// The directory after `e` is unpublished at `p`: `e` leaves the endpoints
/// of `p`, the others keep their order, and `p` leaves the directory with
/// its last endpoint.
pub open spec fn dir_unpublish(dir: Map<Seq<u8>, Seq<Endpoint>>, p: Seq<u8>, e: Endpoint) -> Map<
    Seq<u8>,
    Seq<Endpoint>,
> {
    let eps = endpoints_at(dir, p);
    if !eps.contains(e) {
        dir
    } else if eps.len() == 1 {
        dir.remove(p)
    } else {
        dir.insert(p, eps.remove(eps.index_of(e)))
    }
}

/// The directory after one change.
pub open spec fn dir_apply(dir: Map<Seq<u8>, Seq<Endpoint>>, c: Change) -> Map<
    Seq<u8>,
    Seq<Endpoint>,
> {
    match c.action {
        Action::Publish => dir_publish(dir, c.path@, c.endpoint),
        Action::Unpublish => dir_unpublish(dir, c.path@, c.endpoint),
    }
}

/// The directory after the changes `ops`, applied first to last.
pub open spec fn dir_change(dir: Map<Seq<u8>, Seq<Endpoint>>, ops: Seq<Change>) -> Map<
    Seq<u8>,
    Seq<Endpoint>,
>
    decreases ops.len(),
{
    if ops.len() == 0 {
        dir
    } else {
        dir_apply(dir_change(dir, ops.drop_last()), ops.last())
    }
}

/// A bulk change is acceptable when every path that it publishes is
/// absolute.
pub open spec fn changes_acceptable(ops: Seq<Change>) -> bool {
    forall|i: int|
        0 <= i < ops.len() && (#[trigger] ops[i]).action == Action::Publish ==> is_absolute(
            ops[i].path@,
        )
}

/// What holds of every directory: its paths are absolute, and each has at
/// least one endpoint and none twice.
pub open spec fn dir_wf(dir: Map<Seq<u8>, Seq<Endpoint>>) -> bool {
    forall|p: Seq<u8>| #[trigger]
        dir.contains_key(p) ==> is_absolute(p) && dir[p].len() > 0 && dir[p].no_duplicates()
}

/// The paths at which `dir` holds `e`.
pub open spec fn owned(dir: Map<Seq<u8>, Seq<Endpoint>>, e: Endpoint) -> Set<Seq<u8>> {
    Set::new(|p: Seq<u8>| dir.contains_key(p) && dir[p].contains(e))
}

spec fn key_index(paths: Seq<Path>, p: Seq<u8>) -> int {
    choose|i: int| 0 <= i < paths.len() && (#[trigger] paths[i])@ == p
}

spec fn dir_of(paths: Seq<Path>, eps: Seq<Vec<Endpoint>>) -> Map<Seq<u8>, Seq<Endpoint>> {
    Map::new(|p: Seq<u8>| holds_path(paths, p), |p: Seq<u8>| eps[key_index(paths, p)]@)
}

proof fn lemma_dir_entry(paths: Seq<Path>, eps: Seq<Vec<Endpoint>>, j: int)
    requires
        sorted_paths(paths),
        0 <= j < paths.len(),
    ensures
        dir_of(paths, eps).contains_key(paths[j]@),
        dir_of(paths, eps)[paths[j]@] == eps[j]@,
{
    let k = key_index(paths, paths[j]@);
    lemma_sorted_unique(paths, k, j);
}

/// The path directory.
#[derive(Debug)]
pub struct Store {
    paths: Vec<Path>,
    endpoints: Vec<Vec<Endpoint>>,
}

impl View for Store {
    type V = Map<Seq<u8>, Seq<Endpoint>>;

    closed spec fn view(&self) -> Map<Seq<u8>, Seq<Endpoint>> {
        dir_of(self.paths@, self.endpoints@)
    }
}

fn find_endpoint(eps: &Vec<Endpoint>, e: Endpoint) -> (r: Option<usize>)
    ensures
        match r {
            Some(i) => i < eps@.len() && eps@[i as int] == e,
            None => !eps@.contains(e),
        },
{
    let mut i: usize = 0;
    while i < eps.len()
        invariant
            i <= eps.len(),
            forall|j: int| 0 <= j < i ==> eps@[j] != e,
        decreases eps.len() - i,
    {
        if eps[i] == e {
            return Some(i);
        }
        i += 1;
    }
    None
}

fn copy_endpoints(eps: &Vec<Endpoint>) -> (r: Vec<Endpoint>)
    ensures
        r@ == eps@,
{
    let mut r: Vec<Endpoint> = Vec::new();
    let mut i: usize = 0;
    while i < eps.len()
        invariant
            i <= eps.len(),
            r@ == eps@.subrange(0, i as int),
        decreases eps.len() - i,
    {
        r.push(eps[i]);
        proof {
            assert(r@ =~= eps@.subrange(0, i + 1));
        }
        i += 1;
    }
    proof {
        assert(r@ =~= eps@);
    }
    r
}

impl Store {
    /// The representation invariant: the paths ascend, each is absolute, and
    /// each has at least one endpoint and none twice.
    pub closed spec fn wf(&self) -> bool {
        &&& self.paths@.len() == self.endpoints@.len()
        &&& sorted_paths(self.paths@)
        &&& forall|i: int| 0 <= i < self.paths@.len() ==> is_absolute((#[trigger] self.paths@[i])@)
        &&& forall|i: int|
            0 <= i < self.endpoints@.len() ==> (#[trigger] self.endpoints@[i])@.len() > 0
                && self.endpoints@[i]@.no_duplicates()
    }

    /// The paths of the directory, in ascending order.
    pub closed spec fn keys(&self) -> Seq<Path> {
        self.paths@
    }

    /// A well-formed store is a well-formed directory, and `keys` lists the
    /// paths of that directory in ascending order.
    pub proof fn lemma_wf(&self)
        requires
            self.wf(),
        ensures
            dir_wf(self@),
            sorted_paths(self.keys()),
            path_set(self.keys()) == self@.dom(),
    {
        assert forall|p: Seq<u8>| #[trigger] self@.contains_key(p) implies is_absolute(p)
            && self@[p].len() > 0 && self@[p].no_duplicates() by {
            let j = key_index(self.paths@, p);
            lemma_dir_entry(self.paths@, self.endpoints@, j);
        }
        assert(path_set(self.keys()) =~= self@.dom());
    }

    /// The empty directory.
    pub fn new() -> (s: Store)
        ensures
            s.wf(),
            s@ == Map::<Seq<u8>, Seq<Endpoint>>::empty(),
    {
        let s = Store { paths: Vec::new(), endpoints: Vec::new() };
        assert(s@ =~= Map::<Seq<u8>, Seq<Endpoint>>::empty());
        s
    }

    /// The number of paths in the directory.
    pub fn len(&self) -> (n: usize)
        ensures
            n == self.keys().len(),
    {
        self.paths.len()
    }

    /// The endpoints that serve exactly `path`, in the order in which they
    /// were first published; none when the path is not in the directory.
    pub fn resolve(&self, path: &Path) -> (r: Vec<Endpoint>)
        requires
            self.wf(),
        ensures
            r@ == endpoints_at(self@, path@),
    {
        let i = lower_bound(&self.paths, path.as_bytes());
        proof {
            lemma_lower_bound_finds(self.paths@, path@, i as int);
        }
        if i < self.paths.len() && self.paths[i].equals(path) {
            proof {
                lemma_dir_entry(self.paths@, self.endpoints@, i as int);
            }
            copy_endpoints(&self.endpoints[i])
        } else {
            Vec::new()
        }
    }

    /// Adds `endpoint` to the endpoints of `path`. Nothing changes when it
    /// is already one of them. A path that is not absolute is refused, and
    /// the directory stays as it was.
    pub fn publish(&mut self, path: Path, endpoint: Endpoint) -> (r: Result<(), StoreError>)
        requires
            old(self).wf(),
        ensures
            final(self).wf(),
            is_absolute(path@) ==> r is Ok && final(self)@ == dir_publish(
                old(self)@,
                path@,
                endpoint,
            ),
            !is_absolute(path@) ==> r == Err::<(), StoreError>(StoreError::RelativePath)
                && final(self)@ == old(self)@,
    {
        if !path.is_absolute() {
            return Err(StoreError::RelativePath);
        }
        let i = lower_bound(&self.paths, path.as_bytes());
        proof {
            lemma_lower_bound_finds(self.paths@, path@, i as int);
        }
        let ghost paths0 = self.paths@;
        let ghost eps0 = self.endpoints@;
        if i < self.paths.len() && self.paths[i].equals(&path) {
            proof {
                lemma_dir_entry(paths0, eps0, i as int);
            }
            if find_endpoint(&self.endpoints[i], endpoint).is_none() {
                self.endpoints[i].push(endpoint);
                proof {
                    let eps1 = self.endpoints@;
                    assert(eps1[i as int]@ == eps0[i as int]@.push(endpoint));
                    assert forall|j: int| 0 <= j < eps1.len() implies (#[trigger] eps1[j])@.len()
                        > 0 && eps1[j]@.no_duplicates() by {
                        if j != i {
                            assert(eps1[j] == eps0[j]);
                        }
                    }
                    assert forall|p: Seq<u8>|
                        self@.contains_key(p) implies #[trigger] self@[p] == dir_publish(
                        old(self)@,
                        path@,
                        endpoint,
                    )[p] by {
                        let j = key_index(paths0, p);
                        lemma_dir_entry(paths0, eps0, j);
                        lemma_dir_entry(paths0, eps1, j);
                        if j != i {
                            assert(eps1[j] == eps0[j]);
                            assert(p != path@);
                        }
                    }
                    assert(self@ =~= dir_publish(old(self)@, path@, endpoint));
                }
            }
        } else {
            let mut eps: Vec<Endpoint> = Vec::new();
            eps.push(endpoint);
            proof {
                lemma_insert_sorted(paths0, i as int, path);
            }
            self.paths.insert(i, path);
            self.endpoints.insert(i, eps);
            proof {
                let paths1 = self.paths@;
                let eps1 = self.endpoints@;
                assert(eps@ =~= Seq::<Endpoint>::empty().push(endpoint));
                assert forall|j: int| 0 <= j < paths1.len() implies is_absolute(
                    (#[trigger] paths1[j])@,
                ) by {
                    if j < i {
                        assert(paths1[j] == paths0[j]);
                    } else if j > i {
                        assert(paths1[j] == paths0[j - 1]);
                    }
                }
                assert forall|j: int| 0 <= j < eps1.len() implies (#[trigger] eps1[j])@.len() > 0
                    && eps1[j]@.no_duplicates() by {
                    if j < i {
                        assert(eps1[j] == eps0[j]);
                    } else if j > i {
                        assert(eps1[j] == eps0[j - 1]);
                    }
                }
                let want = dir_publish(old(self)@, path@, endpoint);
                assert(!old(self)@.contains_key(path@));
                assert forall|p: Seq<u8>| self@.contains_key(p) == want.contains_key(p) by {
                    crate::pathset::lemma_insert_set(paths0, i as int, path);
                    assert(path_set(paths1).contains(p) == path_set(paths0).insert(
                        path@,
                    ).contains(p));
                }
                assert forall|p: Seq<u8>| self@.contains_key(p) implies #[trigger] self@[p]
                    == want[p] by {
                    let j = key_index(paths1, p);
                    lemma_dir_entry(paths1, eps1, j);
                    if j < i {
                        assert(paths1[j] == paths0[j]);
                        lemma_dir_entry(paths0, eps0, j);
                        assert(eps1[j] == eps0[j]);
                    } else if j > i {
                        assert(paths1[j] == paths0[j - 1]);
                        lemma_dir_entry(paths0, eps0, j - 1);
                        assert(eps1[j] == eps0[j - 1]);
                        assert(holds_path(paths0, p));
                    }
                }
                assert(self@ =~= want);
            }
        }
        Ok(())
    }

    /// Takes `endpoint` out of the endpoints of `path`; the path leaves the
    /// directory with its last endpoint. Nothing changes when `endpoint` is
    /// not one of them.
    pub fn unpublish(&mut self, path: &Path, endpoint: Endpoint)
        requires
            old(self).wf(),
        ensures
            final(self).wf(),
            final(self)@ == dir_unpublish(old(self)@, path@, endpoint),
    {
        let i = lower_bound(&self.paths, path.as_bytes());
        proof {
            lemma_lower_bound_finds(self.paths@, path@, i as int);
        }
        let ghost paths0 = self.paths@;
        let ghost eps0 = self.endpoints@;
        if !(i < self.paths.len() && self.paths[i].equals(path)) {
            return ;
        }
        proof {
            lemma_dir_entry(paths0, eps0, i as int);
        }
        let found = find_endpoint(&self.endpoints[i], endpoint);
        let k = match found {
            None => {
                return ;
            },
            Some(k) => k,
        };
        let ghost want = dir_unpublish(old(self)@, path@, endpoint);
        proof {
            let eps = eps0[i as int]@;
            assert(eps.contains(endpoint));
            assert(eps.index_of(endpoint) == k);
        }
        if self.endpoints[i].len() == 1 {
            self.paths.remove(i);
            self.endpoints.remove(i);
            proof {
                let paths1 = self.paths@;
                let eps1 = self.endpoints@;
                lemma_remove_sorted(paths0, i as int);
                crate::pathset::lemma_remove_set(paths0, i as int);
                assert forall|j: int| 0 <= j < paths1.len() implies is_absolute(
                    (#[trigger] paths1[j])@,
                ) by {
                    let j0 = if j < i { j } else { j + 1 };
                    assert(paths1[j] == paths0[j0]);
                }
                assert forall|j: int| 0 <= j < eps1.len() implies (#[trigger] eps1[j])@.len() > 0
                    && eps1[j]@.no_duplicates() by {
                    let j0 = if j < i { j } else { j + 1 };
                    assert(eps1[j] == eps0[j0]);
                }
                assert forall|p: Seq<u8>| self@.contains_key(p) == want.contains_key(p) by {
                    assert(path_set(paths1).contains(p) == path_set(paths0).remove(
                        path@,
                    ).contains(p));
                }
                assert forall|p: Seq<u8>| self@.contains_key(p) implies #[trigger] self@[p]
                    == want[p] by {
                    let j = key_index(paths1, p);
                    lemma_dir_entry(paths1, eps1, j);
                    let j0 = if j < i { j } else { j + 1 };
                    assert(paths1[j] == paths0[j0]);
                    assert(eps1[j] == eps0[j0]);
                    lemma_dir_entry(paths0, eps0, j0);
                }
                assert(self@ =~= want);
            }
        } else {
            self.endpoints[i].remove(k);
            proof {
                let eps1 = self.endpoints@;
                let before = eps0[i as int]@;
                let after = eps1[i as int]@;
                assert(after == before.remove(k as int));
                assert(after.no_duplicates()) by {
                    assert forall|a: int, b: int|
                        0 <= a < after.len() && 0 <= b < after.len() && a != b implies after[a]
                        != after[b] by {
                        let a0 = if a < k { a } else { a + 1 };
                        let b0 = if b < k { b } else { b + 1 };
                        assert(after[a] == before[a0] && after[b] == before[b0]);
                    }
                }
                assert forall|j: int| 0 <= j < eps1.len() implies (#[trigger] eps1[j])@.len() > 0
                    && eps1[j]@.no_duplicates() by {
                    if j != i {
                        assert(eps1[j] == eps0[j]);
                    }
                }
                assert forall|p: Seq<u8>| self@.contains_key(p) implies #[trigger] self@[p]
                    == want[p] by {
                    let j = key_index(paths0, p);
                    lemma_dir_entry(paths0, eps0, j);
                    lemma_dir_entry(paths0, eps1, j);
                    if j != i {
                        assert(eps1[j] == eps0[j]);
                        assert(p != path@);
                    }
                }
                assert(self@ =~= want);
            }
        }
    }

    /// The paths of the directory that lie strictly below `prefix`, in
    /// ascending order, each once.
    pub fn list(&self, prefix: &Path) -> (r: Vec<Path>)
        requires
            self.wf(),
        ensures
            sorted_paths(r@),
            forall|s: Seq<u8>|
                holds_path(r@, s) <==> self@.contains_key(s) && is_strict_descendant(s, prefix@),
    {
        let q = prefix.dir_prefix();
        let start = lower_bound(&self.paths, q.as_slice());
        let mut out: Vec<Path> = Vec::new();
        let mut i: usize = start;
        let n = self.paths.len();
        while i < n && bytes_have_prefix(self.paths[i].as_bytes(), q.as_slice())
            invariant
                start <= i <= n,
                n == self.paths@.len(),
                q@ == dir_prefix(prefix@),
                sorted_paths(self.paths@),
                sorted_paths(out@),
                forall|j: int| start <= j < i ==> has_prefix((#[trigger] self.paths@[j])@, q@),
                forall|k: int, j: int|
                    0 <= k < out@.len() && i <= j < n ==> lex_lt(
                        (#[trigger] out@[k])@,
                        (#[trigger] self.paths@[j])@,
                    ),
                forall|k: int|
                    0 <= k < out@.len() ==> (#[trigger] out@[k])@ != prefix@ && exists|j: int|
                        start <= j < i && (#[trigger] self.paths@[j])@ == out@[k]@,
                forall|j: int|
                    start <= j < i && (#[trigger] self.paths@[j])@ != prefix@ ==> holds_path(
                        out@,
                        self.paths@[j]@,
                    ),
            decreases n - i,
        {
            if !self.paths[i].equals(prefix) {
                let ghost out0 = out@;
                let p = self.paths[i].clone();
                out.push(p);
                proof {
                    assert forall|k: int, j: int|
                        0 <= k < out@.len() && i + 1 <= j < n implies lex_lt(
                        (#[trigger] out@[k])@,
                        (#[trigger] self.paths@[j])@,
                    ) by {
                        if k < out0.len() {
                            assert(out@[k] == out0[k]);
                        }
                    }
                    assert forall|a: int, b: int| 0 <= a < b < out@.len() implies lex_lt(
                        (#[trigger] out@[a])@,
                        (#[trigger] out@[b])@,
                    ) by {
                        assert(out@[a] == out0[a]);
                        if b < out0.len() {
                            assert(out@[b] == out0[b]);
                        }
                    }
                    assert forall|k: int| 0 <= k < out@.len() implies (#[trigger] out@[k])@
                        != prefix@ && exists|j: int|
                        start <= j < i + 1 && (#[trigger] self.paths@[j])@ == out@[k]@ by {
                        if k < out0.len() {
                            assert(out@[k] == out0[k]);
                            let j = choose|j: int|
                                start <= j < i && (#[trigger] self.paths@[j])@ == out0[k]@;
                            assert(self.paths@[j]@ == out@[k]@);
                        } else {
                            assert(self.paths@[i as int]@ == out@[k]@);
                        }
                    }
                    assert forall|j: int|
                        start <= j < i + 1 && (#[trigger] self.paths@[j])@
                            != prefix@ implies holds_path(out@, self.paths@[j]@) by {
                        if j < i {
                            let k = choose|k: int|
                                0 <= k < out0.len() && (#[trigger] out0[k])@ == self.paths@[j]@;
                            assert(out@[k] == out0[k]);
                        } else {
                            assert(out@[out0.len() as int]@ == self.paths@[j]@);
                        }
                    }
                }
            }
            i += 1;
        }
        proof {
            assert forall|s: Seq<u8>|
                holds_path(out@, s) <==> self@.contains_key(s) && is_strict_descendant(
                    s,
                    prefix@,
                ) by {
                if holds_path(out@, s) {
                    let k = choose|k: int| 0 <= k < out@.len() && (#[trigger] out@[k])@ == s;
                    let j = choose|j: int|
                        start <= j < i && (#[trigger] self.paths@[j])@ == out@[k]@;
                    assert(holds_path(self.paths@, s));
                }
                if self@.contains_key(s) && is_strict_descendant(s, prefix@) {
                    let j = key_index(self.paths@, s);
                    if j < start {
                        lemma_prefixed_not_below(s, q@);
                    }
                    if j >= i {
                        let t = self.paths@[i as int]@;
                        lemma_lex_total(t, q@);
                        lemma_prefixed_block(s, q@, t);
                        if j > i {
                            lemma_lex_asymmetric(t, s);
                        }
                    }
                }
            }
        }
        out
    }

    /// Applies `ops` first to last, as one change. When one of them would
    /// publish a path that is not absolute, none is applied.
    pub fn bulk_change(&mut self, ops: &Vec<Change>) -> (r: Result<(), StoreError>)
        requires
            old(self).wf(),
        ensures
            final(self).wf(),
            changes_acceptable(ops@) ==> r is Ok && final(self)@ == dir_change(old(self)@, ops@),
            !changes_acceptable(ops@) ==> r == Err::<(), StoreError>(StoreError::RelativePath)
                && final(self)@ == old(self)@,
    {
        let mut i: usize = 0;
        while i < ops.len()
            invariant
                i <= ops.len(),
                *self == *old(self),
                self.wf(),
                forall|j: int|
                    0 <= j < i && (#[trigger] ops@[j]).action == Action::Publish ==> is_absolute(
                        ops@[j].path@,
                    ),
            decreases ops.len() - i,
        {
            let publish = match ops[i].action {
                Action::Publish => true,
                Action::Unpublish => false,
            };
            if publish && !ops[i].path.is_absolute() {
                return Err(StoreError::RelativePath);
            }
            i += 1;
        }
        let mut i: usize = 0;
        while i < ops.len()
            invariant
                i <= ops.len(),
                self.wf(),
                changes_acceptable(ops@),
                self@ == dir_change(old(self)@, ops@.take(i as int)),
            decreases ops.len() - i,
        {
            proof {
                assert(ops@.take(i + 1).drop_last() =~= ops@.take(i as int));
                assert(ops@.take(i + 1).last() == ops@[i as int]);
            }
            match ops[i].action {
                Action::Publish => {
                    let _ = self.publish(ops[i].path.clone(), ops[i].endpoint);
                },
                Action::Unpublish => {
                    self.unpublish(&ops[i].path, ops[i].endpoint);
                },
            }
            i += 1;
        }
        proof {
            assert(ops@.take(ops@.len() as int) =~= ops@);
        }
        Ok(())
    }
}

} // verus!
