//! The registry of writers.
//!
//! Each writer is known by the endpoint it publishes for. Its record holds
//! its time to live, the time it was last heard from, the paths it has
//! published, and the handle by which its session is cancelled. Times are
//! seconds on a clock of the caller's choosing.

use vstd::prelude::*;
use crate::endpoint::Endpoint;
use crate::path::Path;
use crate::pathset::{path_set, PathSet};

verus! {

/// What the registry knows of one writer, as a mathematical value.
pub struct RecordView {
    pub ttl: u64,
    pub last_seen: u64,
    pub published: Set<Seq<u8>>,
    pub cancel: u64,
}

/// A writer has expired at time `now` when more than its time to live has
/// passed since it was last heard from.
pub open spec fn expired(r: RecordView, now: u64) -> bool {
    now - r.last_seen > r.ttl
}

/// The writers of `clients` that have expired at `now`.
pub open spec fn expired_set(clients: Map<Endpoint, RecordView>, now: u64) -> Set<Endpoint> {
    Set::new(|e: Endpoint| clients.contains_key(e) && expired(clients[e], now))
}

/// Those of `order` that are writers of `clients` which have expired at
/// `now`; they keep their order.
pub open spec fn expired_writers(
    clients: Map<Endpoint, RecordView>,
    order: Seq<Endpoint>,
    now: u64,
) -> Seq<Endpoint> {
    order.filter(|e: Endpoint| expired_set(clients, now).contains(e))
}

/// When `order` lists the writers of `clients` once each, `expired_writers`
/// lists the expired ones once each.
pub proof fn lemma_expired_writers(
    clients: Map<Endpoint, RecordView>,
    order: Seq<Endpoint>,
    now: u64,
)
    requires
        order.no_duplicates(),
        forall|e: Endpoint| order.contains(e) <==> clients.contains_key(e),
    ensures
        expired_writers(clients, order, now).no_duplicates(),
        expired_writers(clients, order, now).to_set() == expired_set(clients, now),
{
    let f = |e: Endpoint| expired_set(clients, now).contains(e);
    crate::seqs::lemma_filter_no_duplicates(order, f);
    crate::seqs::lemma_filter_members(order, f);
    assert(expired_writers(clients, order, now).to_set() =~= expired_set(clients, now));
}

/// The record of one writer.
#[derive(Debug)]
pub struct ClientRecord {
    addr: Endpoint,
    ttl: u64,
    last_seen: u64,
    published: PathSet,
    cancel: u64,
}

impl View for ClientRecord {
    type V = RecordView;

    closed spec fn view(&self) -> RecordView {
        RecordView {
            ttl: self.ttl,
            last_seen: self.last_seen,
            published: self.published@,
            cancel: self.cancel,
        }
    }
}

/// What `upsert` reports: whether the writer has to publish anew, and the
/// cancellation handle of the session that it replaces, to be signalled.
#[derive(Clone, Copy, Debug, PartialEq, Eq, Structural)]
pub struct Upsert {
    pub ttl_expired: bool,
    pub signal: Option<u64>,
}

/// What is left of a writer that was forgotten: the paths it had published,
/// in ascending order, and its cancellation handle.
#[derive(Debug)]
pub struct Forgotten {
    pub published: Vec<Path>,
    pub cancel: u64,
}

spec fn has_addr(recs: Seq<ClientRecord>, e: Endpoint) -> bool {
    exists|i: int| 0 <= i < recs.len() && (#[trigger] recs[i]).addr == e
}

spec fn addr_index(recs: Seq<ClientRecord>, e: Endpoint) -> int {
    choose|i: int| 0 <= i < recs.len() && (#[trigger] recs[i]).addr == e
}

spec fn distinct_addrs(recs: Seq<ClientRecord>) -> bool {
    forall|i: int, j: int|
        0 <= i < j < recs.len() ==> (#[trigger] recs[i]).addr != (#[trigger] recs[j]).addr
}

spec fn sets_wf(recs: Seq<ClientRecord>) -> bool {
    forall|i: int| 0 <= i < recs.len() ==> (#[trigger] recs[i]).published.wf()
}

spec fn clients_of(recs: Seq<ClientRecord>) -> Map<Endpoint, RecordView> {
    Map::new(|e: Endpoint| has_addr(recs, e), |e: Endpoint| recs[addr_index(recs, e)]@)
}

proof fn lemma_client_entry(recs: Seq<ClientRecord>, i: int)
    requires
        distinct_addrs(recs),
        0 <= i < recs.len(),
    ensures
        clients_of(recs).contains_key(recs[i].addr),
        clients_of(recs)[recs[i].addr] == recs[i]@,
        addr_index(recs, recs[i].addr) == i,
{
    let k = addr_index(recs, recs[i].addr);
    if k < i {
        assert(recs[k].addr != recs[i].addr);
    } else if i < k {
        assert(recs[i].addr != recs[k].addr);
    }
}

proof fn lemma_clients_update(recs: Seq<ClientRecord>, i: int, r: ClientRecord)
    requires
        distinct_addrs(recs),
        0 <= i < recs.len(),
        r.addr == recs[i].addr,
    ensures
        distinct_addrs(recs.update(i, r)),
        clients_of(recs.update(i, r)) == clients_of(recs).insert(r.addr, r@),
{
    let next = recs.update(i, r);
    assert forall|a: int, b: int| 0 <= a < b < next.len() implies (#[trigger] next[a]).addr != (
    #[trigger] next[b]).addr by {
        assert(next[a].addr == recs[a].addr && next[b].addr == recs[b].addr);
    }
    let want = clients_of(recs).insert(r.addr, r@);
    assert forall|e: Endpoint| clients_of(next).contains_key(e) == want.contains_key(e) by {
        if has_addr(next, e) {
            let k = choose|k: int| 0 <= k < next.len() && (#[trigger] next[k]).addr == e;
            assert(recs[k].addr == e);
        }
        if has_addr(recs, e) {
            let k = choose|k: int| 0 <= k < recs.len() && (#[trigger] recs[k]).addr == e;
            assert(next[k].addr == e);
        }
        if e == r.addr {
            assert(next[i].addr == e);
        }
    }
    assert forall|e: Endpoint| clients_of(next).contains_key(e) implies #[trigger] clients_of(
        next,
    )[e] == want[e] by {
        let k = addr_index(next, e);
        lemma_client_entry(next, k);
        if k != i {
            assert(recs[k].addr == e);
            lemma_client_entry(recs, k);
        }
    }
    assert(clients_of(next) =~= want);
}

proof fn lemma_clients_push(recs: Seq<ClientRecord>, r: ClientRecord)
    requires
        distinct_addrs(recs),
        !has_addr(recs, r.addr),
    ensures
        distinct_addrs(recs.push(r)),
        clients_of(recs.push(r)) == clients_of(recs).insert(r.addr, r@),
{
    let next = recs.push(r);
    assert forall|a: int, b: int| 0 <= a < b < next.len() implies (#[trigger] next[a]).addr != (
    #[trigger] next[b]).addr by {
        assert(next[a] == recs[a]);
        if b < recs.len() {
            assert(next[b] == recs[b]);
        }
    }
    let want = clients_of(recs).insert(r.addr, r@);
    assert forall|e: Endpoint| clients_of(next).contains_key(e) == want.contains_key(e) by {
        if has_addr(next, e) {
            let k = choose|k: int| 0 <= k < next.len() && (#[trigger] next[k]).addr == e;
            if k < recs.len() {
                assert(recs[k].addr == e);
            }
        }
        if has_addr(recs, e) {
            let k = choose|k: int| 0 <= k < recs.len() && (#[trigger] recs[k]).addr == e;
            assert(next[k].addr == e);
        }
        if e == r.addr {
            assert(next[recs.len() as int].addr == e);
        }
    }
    assert forall|e: Endpoint| clients_of(next).contains_key(e) implies #[trigger] clients_of(
        next,
    )[e] == want[e] by {
        let k = addr_index(next, e);
        lemma_client_entry(next, k);
        if k < recs.len() {
            assert(recs[k].addr == e);
            lemma_client_entry(recs, k);
        }
    }
    assert(clients_of(next) =~= want);
}

proof fn lemma_clients_remove(recs: Seq<ClientRecord>, i: int)
    requires
        distinct_addrs(recs),
        0 <= i < recs.len(),
    ensures
        distinct_addrs(recs.remove(i)),
        clients_of(recs.remove(i)) == clients_of(recs).remove(recs[i].addr),
{
    let next = recs.remove(i);
    assert forall|a: int, b: int| 0 <= a < b < next.len() implies (#[trigger] next[a]).addr != (
    #[trigger] next[b]).addr by {
        let a0 = if a < i { a } else { a + 1 };
        let b0 = if b < i { b } else { b + 1 };
        assert(next[a] == recs[a0] && next[b] == recs[b0]);
    }
    let want = clients_of(recs).remove(recs[i].addr);
    assert forall|e: Endpoint| clients_of(next).contains_key(e) == want.contains_key(e) by {
        if has_addr(next, e) {
            let k = choose|k: int| 0 <= k < next.len() && (#[trigger] next[k]).addr == e;
            let k0 = if k < i { k } else { k + 1 };
            assert(recs[k0].addr == e);
            if k0 < i {
                assert(recs[k0].addr != recs[i].addr);
            } else {
                assert(recs[i].addr != recs[k0].addr);
            }
        }
        if has_addr(recs, e) && e != recs[i].addr {
            let k = choose|k: int| 0 <= k < recs.len() && (#[trigger] recs[k]).addr == e;
            if k < i {
                assert(next[k].addr == e);
            } else {
                assert(next[k - 1].addr == e);
            }
        }
    }
    assert forall|e: Endpoint| clients_of(next).contains_key(e) implies #[trigger] clients_of(
        next,
    )[e] == want[e] by {
        let k = addr_index(next, e);
        lemma_client_entry(next, k);
        let k0 = if k < i { k } else { k + 1 };
        assert(recs[k0].addr == e);
        lemma_client_entry(recs, k0);
    }
    assert(clients_of(next) =~= want);
}

/// The registry of writers, keyed by the endpoint each publishes for.
#[derive(Debug)]
pub struct Registry {
    records: Vec<ClientRecord>,
}

impl View for Registry {
    type V = Map<Endpoint, RecordView>;

    closed spec fn view(&self) -> Map<Endpoint, RecordView> {
        clients_of(self.records@)
    }
}

impl Registry {
    /// The representation invariant: one record per endpoint, each with a
    /// well-formed set of paths.
    pub closed spec fn wf(&self) -> bool {
        distinct_addrs(self.records@) && sets_wf(self.records@)
    }

    /// The endpoints of the registered writers, in the order in which the
    /// registry holds them.
    pub closed spec fn order(&self) -> Seq<Endpoint> {
        self.records@.map_values(|r: ClientRecord| r.addr)
    }

    /// `order` lists every registered writer once.
    pub proof fn lemma_order(&self)
        requires
            self.wf(),
        ensures
            self.order().no_duplicates(),
            forall|e: Endpoint| self.order().contains(e) <==> self@.contains_key(e),
    {
        let o = self.order();
        assert forall|i: int, j: int| 0 <= i < o.len() && 0 <= j < o.len() && i != j implies o[i]
            != o[j] by {
            if i < j {
                assert(self.records@[i].addr != self.records@[j].addr);
            } else {
                assert(self.records@[j].addr != self.records@[i].addr);
            }
        }
        assert forall|e: Endpoint| o.contains(e) <==> self@.contains_key(e) by {
            if o.contains(e) {
                let i = choose|i: int| 0 <= i < o.len() && o[i] == e;
                assert(self.records@[i].addr == e);
            }
            if has_addr(self.records@, e) {
                let i = addr_index(self.records@, e);
                assert(o[i] == e);
            }
        }
    }

    /// The registry without writers.
    pub fn new() -> (r: Registry)
        ensures
            r.wf(),
            r@ == Map::<Endpoint, RecordView>::empty(),
    {
        let r = Registry { records: Vec::new() };
        assert(r@ =~= Map::<Endpoint, RecordView>::empty());
        r
    }

    /// The number of registered writers.
    pub fn len(&self) -> (n: usize)
        ensures
            n == self.order().len(),
    {
        self.records.len()
    }

    fn find(&self, addr: Endpoint) -> (r: Option<usize>)
        requires
            self.wf(),
        ensures
            match r {
                Some(i) => i < self.records@.len() && self.records@[i as int].addr == addr
                    && self@.contains_key(addr) && self@[addr] == self.records@[i as int]@,
                None => !self@.contains_key(addr),
            },
    {
        let mut i: usize = 0;
        while i < self.records.len()
            invariant
                i <= self.records.len(),
                self.wf(),
                forall|j: int| 0 <= j < i ==> (#[trigger] self.records@[j]).addr != addr,
            decreases self.records.len() - i,
        {
            if self.records[i].addr == addr {
                proof {
                    lemma_client_entry(self.records@, i as int);
                }
                return Some(i);
            }
            i += 1;
        }
        None
    }

    /// Whether a writer is registered for `addr`.
    pub fn contains(&self, addr: Endpoint) -> (b: bool)
        requires
            self.wf(),
        ensures
            b == self@.contains_key(addr),
    {
        self.find(addr).is_some()
    }

    /// Registers the writer at `addr`, or takes note that it is back. A
    /// writer that is known keeps its paths and its time to live; it is
    /// marked as heard from at `now`, and `cancel` replaces its handle, the
    /// old one being handed back for signalling. A writer that is not known
    /// gets a fresh record without paths, and is told that it has to publish
    /// anew.
    pub fn upsert(&mut self, addr: Endpoint, ttl: u64, cancel: u64, now: u64) -> (r: Upsert)
        requires
            old(self).wf(),
        ensures
            final(self).wf(),
            r.ttl_expired == !old(self)@.contains_key(addr),
            old(self)@.contains_key(addr) ==> r.signal == Some(old(self)@[addr].cancel)
                && final(self)@ == old(self)@.insert(
                addr,
                RecordView { last_seen: now, cancel, ..old(self)@[addr] },
            ),
            !old(self)@.contains_key(addr) ==> r.signal.is_none() && final(self)@ == old(
                self,
            )@.insert(
                addr,
                RecordView {
                    ttl,
                    last_seen: now,
                    published: Set::<Seq<u8>>::empty(),
                    cancel,
                },
            ),
    {
        match self.find(addr) {
            Some(i) => {
                let ghost before = self.records@;
                let signal = Some(self.records[i].cancel);
                self.records[i].last_seen = now;
                self.records[i].cancel = cancel;
                proof {
                    let after = self.records@[i as int];
                    assert(self.records@ =~= before.update(i as int, after));
                    lemma_clients_update(before, i as int, after);
                    assert forall|j: int| 0 <= j < self.records@.len() implies (
                    #[trigger] self.records@[j]).published.wf() by {
                        assert(before[j].published.wf());
                    }
                }
                Upsert { ttl_expired: false, signal }
            },
            None => {
                let ghost before = self.records@;
                let rec = ClientRecord {
                    addr,
                    ttl,
                    last_seen: now,
                    published: PathSet::new(),
                    cancel,
                };
                self.records.push(rec);
                proof {
                    lemma_clients_push(before, rec);
                    assert forall|j: int| 0 <= j < self.records@.len() implies (
                    #[trigger] self.records@[j]).published.wf() by {
                        if j < before.len() {
                            assert(before[j].published.wf());
                        }
                    }
                }
                Upsert { ttl_expired: true, signal: None }
            },
        }
    }

    /// Marks the writer at `addr` as heard from at `now`. Returns whether
    /// it is registered; nothing changes when it is not.
    pub fn touch(&mut self, addr: Endpoint, now: u64) -> (found: bool)
        requires
            old(self).wf(),
        ensures
            final(self).wf(),
            found == old(self)@.contains_key(addr),
            found ==> final(self)@ == old(self)@.insert(
                addr,
                RecordView { last_seen: now, ..old(self)@[addr] },
            ),
            !found ==> final(self)@ == old(self)@,
    {
        match self.find(addr) {
            Some(i) => {
                let ghost before = self.records@;
                self.records[i].last_seen = now;
                proof {
                    let after = self.records@[i as int];
                    assert(self.records@ =~= before.update(i as int, after));
                    lemma_clients_update(before, i as int, after);
                    assert forall|j: int| 0 <= j < self.records@.len() implies (
                    #[trigger] self.records@[j]).published.wf() by {
                        assert(before[j].published.wf());
                    }
                }
                true
            },
            None => false,
        }
    }

    /// The writers that have expired at `now`, each once, in the order of
    /// the registry.
    pub fn expire(&self, now: u64) -> (r: Vec<Endpoint>)
        requires
            self.wf(),
        ensures
            r@ == expired_writers(self@, self.order(), now),
    {
        let ghost f = |e: Endpoint| expired_set(self@, now).contains(e);
        let mut r: Vec<Endpoint> = Vec::new();
        let mut i: usize = 0;
        while i < self.records.len()
            invariant
                i <= self.records.len(),
                self.wf(),
                f == (|e: Endpoint| expired_set(self@, now).contains(e)),
                r@ == self.order().take(i as int).filter(f),
            decreases self.records.len() - i,
        {
            proof {
                reveal(Seq::filter);
                lemma_client_entry(self.records@, i as int);
                assert(self.order().take(i + 1).drop_last() =~= self.order().take(i as int));
                assert(self.order().take(i + 1).last() == self.records@[i as int].addr);
            }
            let rec = &self.records[i];
            if now > rec.last_seen && now - rec.last_seen > rec.ttl {
                r.push(rec.addr);
            }
            i += 1;
        }
        proof {
            reveal(Seq::filter);
            assert(self.order().take(self.records@.len() as int) =~= self.order());
        }
        r
    }

    /// Takes the record of the writer at `addr` out of the registry, and
    /// hands back what it held. Nothing changes when no writer is registered
    /// for `addr`.
    pub fn forget(&mut self, addr: Endpoint) -> (r: Option<Forgotten>)
        requires
            old(self).wf(),
        ensures
            final(self).wf(),
            final(self)@ == old(self)@.remove(addr),
            r is Some == old(self)@.contains_key(addr),
            r matches Some(f) ==> f.cancel == old(self)@[addr].cancel && path_set(f.published@)
                == old(self)@[addr].published && crate::pathset::sorted_paths(f.published@),
    {
        match self.find(addr) {
            Some(i) => {
                let ghost before = self.records@;
                let rec = self.records.remove(i);
                proof {
                    lemma_clients_remove(before, i as int);
                    assert forall|j: int| 0 <= j < self.records@.len() implies (
                    #[trigger] self.records@[j]).published.wf() by {
                        let j0 = if j < i { j } else { j + 1 };
                        assert(self.records@[j] == before[j0]);
                    }
                    assert(rec.published.wf());
                    rec.published.lemma_seq();
                }
                let published = rec.published.to_vec();
                proof {
                    crate::pathset::lemma_path_views(published@);
                    crate::pathset::lemma_path_views(rec.published.seq());
                }
                Some(Forgotten { published, cancel: rec.cancel })
            },
            None => {
                assert(self@ =~= old(self)@.remove(addr));
                None
            },
        }
    }

    /// Notes that the writer at `addr` has published `path`. Returns
    /// whether the writer is registered; nothing changes when it is not.
    pub fn add_path(&mut self, addr: Endpoint, path: Path) -> (found: bool)
        requires
            old(self).wf(),
        ensures
            final(self).wf(),
            found == old(self)@.contains_key(addr),
            found ==> final(self)@ == old(self)@.insert(
                addr,
                RecordView {
                    published: old(self)@[addr].published.insert(path@),
                    ..old(self)@[addr]
                },
            ),
            !found ==> final(self)@ == old(self)@,
    {
        match self.find(addr) {
            Some(i) => {
                let ghost before = self.records@;
                self.records[i].published.insert(path);
                proof {
                    let after = self.records@[i as int];
                    assert(self.records@ =~= before.update(i as int, after));
                    lemma_clients_update(before, i as int, after);
                    assert forall|j: int| 0 <= j < self.records@.len() implies (
                    #[trigger] self.records@[j]).published.wf() by {
                        if j != i {
                            assert(before[j].published.wf());
                        }
                    }
                }
                true
            },
            None => false,
        }
    }

    /// Notes that the writer at `addr` has withdrawn `path`. Returns
    /// whether the writer is registered; nothing changes when it is not.
    pub fn remove_path(&mut self, addr: Endpoint, path: &Path) -> (found: bool)
        requires
            old(self).wf(),
        ensures
            final(self).wf(),
            found == old(self)@.contains_key(addr),
            found ==> final(self)@ == old(self)@.insert(
                addr,
                RecordView {
                    published: old(self)@[addr].published.remove(path@),
                    ..old(self)@[addr]
                },
            ),
            !found ==> final(self)@ == old(self)@,
    {
        match self.find(addr) {
            Some(i) => {
                let ghost before = self.records@;
                self.records[i].published.remove(path);
                proof {
                    let after = self.records@[i as int];
                    assert(self.records@ =~= before.update(i as int, after));
                    lemma_clients_update(before, i as int, after);
                    assert forall|j: int| 0 <= j < self.records@.len() implies (
                    #[trigger] self.records@[j]).published.wf() by {
                        if j != i {
                            assert(before[j].published.wf());
                        }
                    }
                }
                true
            },
            None => false,
        }
    }

    /// Notes that the writer at `addr` has withdrawn all its paths. Returns
    /// whether the writer is registered; nothing changes when it is not.
    pub fn clear_paths(&mut self, addr: Endpoint) -> (found: bool)
        requires
            old(self).wf(),
        ensures
            final(self).wf(),
            found == old(self)@.contains_key(addr),
            found ==> final(self)@ == old(self)@.insert(
                addr,
                RecordView { published: Set::<Seq<u8>>::empty(), ..old(self)@[addr] },
            ),
            !found ==> final(self)@ == old(self)@,
    {
        match self.find(addr) {
            Some(i) => {
                let ghost before = self.records@;
                self.records[i].published = PathSet::new();
                proof {
                    let after = self.records@[i as int];
                    assert(self.records@ =~= before.update(i as int, after));
                    lemma_clients_update(before, i as int, after);
                    assert forall|j: int| 0 <= j < self.records@.len() implies (
                    #[trigger] self.records@[j]).published.wf() by {
                        if j != i {
                            assert(before[j].published.wf());
                        }
                    }
                }
                true
            },
            None => false,
        }
    }

    /// The paths that the writer at `addr` has published, in ascending
    /// order; `None` when no writer is registered for `addr`.
    pub fn published(&self, addr: Endpoint) -> (r: Option<Vec<Path>>)
        requires
            self.wf(),
        ensures
            r is Some == self@.contains_key(addr),
            r matches Some(ps) ==> path_set(ps@) == self@[addr].published
                && crate::pathset::sorted_paths(ps@),
    {
        match self.find(addr) {
            Some(i) => {
                let ps = self.records[i].published.to_vec();
                proof {
                    assert(self.records@[i as int].published.wf());
                    self.records@[i as int].published.lemma_seq();
                    crate::pathset::lemma_path_views(ps@);
                    crate::pathset::lemma_path_views(self.records@[i as int].published.seq());
                }
                Some(ps)
            },
            None => None,
        }
    }
}

} // verus!
