//! The server core: the directory and the registry of writers under one
//! roof, the sessions of clients, and the scavenger.
//!
//! Nothing here waits or does I/O. A caller reads a hello or a batch of
//! requests from a connection, hands it to the context together with the
//! time, and writes what comes back.

use vstd::prelude::*;
use crate::directory::{
    adverts, all_absolute, dir_with, dir_without, lemma_nothing, lemma_publish_is_with,
    lemma_unpublish_is_without, lemma_with_with, lemma_without_agree, lemma_without_without,
};
use crate::endpoint::Endpoint;
use crate::model::{
    all_adverts, answers, claimed, consistent, lemma_clear_consistent, lemma_forget_consistent,
    lemma_publish_consistent, lemma_reads_change_nothing, lemma_touch_consistent,
    lemma_unpublish_consistent, lemma_upsert_consistent, lists, relative_path, request_views,
    resolved, run, state_forget, state_scavenge, state_touch, state_upsert, step, ServerState,
};
use crate::path::Path;
use crate::pathset::{lemma_path_views, path_views};
use crate::protocol::{
    any_needs_write, batch_needs_write, endpoint_views, ClientHello, FromResolver, Request,
    ServerHello, ToResolver, MAX_TTL, MIN_TTL,
};
use crate::registry::{expired_set, expired_writers, lemma_expired_writers, RecordView, Registry};
use crate::seqs::lemma_take_set;
use crate::store::{owned, Store};

verus! {

/// The time to live, in seconds, of the record that stands for a client
/// which only reads.
pub const READ_ONLY_TTL: u64 = 120;

/// The number of seconds between two runs of the scavenger.
pub const SCAVENGE_PERIOD: u64 = 10;

/// The largest number of requests served as one batch.
pub const MAX_BATCH: usize = 10000;

/// Where a connection stands.
#[derive(Clone, Copy, Debug, PartialEq, Eq, Structural)]
pub enum Session {
    /// Nothing was read yet; the next message must be a hello.
    AwaitHello,
    /// The client at `peer` only reads. It has a record of its own, which
    /// the registry does not hold.
    ReadOnly { peer: Endpoint, ttl: u64, last_seen: u64 },
    /// The client publishes for the listener at `write_addr`.
    ReadWrite { write_addr: Endpoint },
    /// The connection is to be closed.
    Closed,
}

/// Why a session ends.
#[derive(Clone, Copy, Debug, PartialEq, Eq, Structural)]
pub enum SessionError {
    /// A hello after the first message, or requests before the hello.
    WrongPhase,
    /// A writer asked for a time to live outside the accepted range.
    TtlOutOfRange,
    /// A client that said it would only read asked for a change.
    ReadOnly,
    /// The writer's record is gone: the scavenger has taken it.
    Expired,
    /// The session had ended before.
    Closed,
}

/// What a client that said hello is told, and the cancellation handle of
/// the session that this one replaces, if there is one to signal.
#[derive(Clone, Copy, Debug, PartialEq, Eq, Structural)]
pub struct Welcome {
    pub reply: ServerHello,
    pub signal: Option<u64>,
}

impl Session {
    /// The session of a connection that was just accepted.
    pub fn new() -> (s: Session)
        ensures
            s == Session::AwaitHello,
    {
        Session::AwaitHello
    }

    /// Whether the hello was taken and the session has not ended.
    pub open spec fn spec_is_running(self) -> bool {
        self is ReadOnly || self is ReadWrite
    }

    /// Whether the hello was taken and the session has not ended.
    #[verifier::when_used_as_spec(spec_is_running)]
    pub fn is_running(self) -> (b: bool)
        ensures
            b == self.spec_is_running(),
    {
        match self {
            Session::ReadOnly { .. } => true,
            Session::ReadWrite { .. } => true,
            _ => false,
        }
    }

    /// The session after the client was heard from at `now`: the record of
    /// a client that only reads is the session's own.
    pub open spec fn heard(self, now: u64) -> Session {
        match self {
            Session::ReadOnly { peer, ttl, last_seen } => Session::ReadOnly {
                peer,
                ttl,
                last_seen: now,
            },
            s => s,
        }
    }

    /// The endpoint that the session acts for: the writer's, or the peer's
    /// for a client that only reads.
    pub open spec fn addr(self) -> Endpoint {
        match self {
            Session::ReadOnly { peer, .. } => peer,
            Session::ReadWrite { write_addr } => write_addr,
            _ => arbitrary(),
        }
    }

    /// Notes that the client was heard from at `now`.
    pub fn touch(&mut self, now: u64)
        ensures
            *final(self) == old(self).heard(now),
    {
        match *self {
            Session::ReadOnly { peer, ttl, last_seen: _ } => {
                *self = Session::ReadOnly { peer, ttl, last_seen: now };
            },
            _ => {},
        }
    }

    /// Ends the session.
    pub fn close(&mut self)
        ensures
            *final(self) == Session::Closed,
    {
        *self = Session::Closed;
    }
}

/// Why a batch ends the session `session` in state `s`, if it does.
pub open spec fn batch_fault(session: Session, s: ServerState, batch: Seq<ToResolver>) -> Option<
    SessionError,
> {
    match session {
        Session::AwaitHello => Some(SessionError::WrongPhase),
        Session::Closed => Some(SessionError::Closed),
        Session::ReadOnly { .. } => if any_needs_write(batch) {
            Some(SessionError::ReadOnly)
        } else {
            None
        },
        Session::ReadWrite { write_addr } => if s.clients.contains_key(write_addr) {
            None
        } else {
            Some(SessionError::Expired)
        },
    }
}

/// The state in which the first request of a batch is served: the writer
/// is noted as heard from at `now`.
pub open spec fn batch_start(session: Session, s: ServerState, now: u64) -> ServerState {
    match session {
        Session::ReadWrite { write_addr } => state_touch(s, write_addr, now),
        _ => s,
    }
}

/// The error text for a path that is not absolute.
fn relative_path_error() -> (r: FromResolver)
    ensures
        r@ == crate::protocol::Response::Error(relative_path()),
{
    FromResolver::Error("relative path".to_owned())
}

/// Whether every path of `paths` is absolute.
fn paths_absolute(paths: &Vec<Path>) -> (b: bool)
    ensures
        b == all_absolute(path_views(paths@).to_set()),
{
    let ghost v = path_views(paths@);
    let mut i: usize = 0;
    while i < paths.len()
        invariant
            i <= paths.len(),
            v == path_views(paths@),
            forall|j: int| 0 <= j < i ==> crate::path::is_absolute(#[trigger] v[j]),
        decreases paths.len() - i,
    {
        if !paths[i].is_absolute() {
            proof {
                assert(v[i as int] == paths@[i as int]@);
                assert(v.contains(v[i as int]));
            }
            return false;
        }
        proof {
            assert(v[i as int] == paths@[i as int]@);
        }
        i += 1;
    }
    proof {
        assert forall|p: Seq<u8>| v.to_set().contains(p) implies crate::path::is_absolute(p) by {
            let j = choose|j: int| 0 <= j < v.len() && v[j] == p;
            assert(crate::path::is_absolute(v[j]));
        }
    }
    true
}

/// Publishes `w` at each of `paths`.
fn advertise(store: &mut Store, w: Endpoint, paths: &Vec<Path>)
    requires
        old(store).wf(),
        all_absolute(path_views(paths@).to_set()),
    ensures
        final(store).wf(),
        final(store)@ == dir_with(old(store)@, w, path_views(paths@).to_set()),
{
    let ghost v = path_views(paths@);
    let ghost d0 = store@;
    proof {
        store.lemma_wf();
        lemma_nothing(d0, w);
        if v.len() > 0 {
            lemma_take_set(v, 0);
        } else {
            assert(v.take(0).to_set() =~= Set::<Seq<u8>>::empty());
        }
    }
    let mut i: usize = 0;
    while i < paths.len()
        invariant
            i <= paths.len(),
            v == path_views(paths@),
            all_absolute(v.to_set()),
            store.wf(),
            store@ == dir_with(d0, w, v.take(i as int).to_set()),
        decreases paths.len() - i,
    {
        proof {
            assert(v[i as int] == paths@[i as int]@);
            assert(v.contains(v[i as int]));
            assert(v.to_set().contains(v[i as int]));
            lemma_take_set(v, i as int);
            let mid = store@;
            lemma_publish_is_with(mid, v[i as int], w);
            lemma_with_with(d0, w, v.take(i as int).to_set(), set![v[i as int]]);
            assert(v.take(i as int).to_set().union(set![v[i as int]]) =~= v.take(
                i as int,
            ).to_set().insert(v[i as int]));
        }
        let _ = store.publish(paths[i].clone(), w);
        i += 1;
    }
    proof {
        assert(v.take(v.len() as int) =~= v);
    }
}

/// Unpublishes `w` at each of `paths`.
fn withdraw(store: &mut Store, w: Endpoint, paths: &Vec<Path>)
    requires
        old(store).wf(),
    ensures
        final(store).wf(),
        final(store)@ == dir_without(old(store)@, adverts(w, path_views(paths@).to_set())),
{
    let ghost v = path_views(paths@);
    let ghost d0 = store@;
    proof {
        store.lemma_wf();
        lemma_nothing(d0, w);
        assert(v.take(0).to_set() =~= Set::<Seq<u8>>::empty());
    }
    let mut i: usize = 0;
    while i < paths.len()
        invariant
            i <= paths.len(),
            v == path_views(paths@),
            store.wf(),
            store@ == dir_without(d0, adverts(w, v.take(i as int).to_set())),
        decreases paths.len() - i,
    {
        proof {
            assert(v[i as int] == paths@[i as int]@);
            lemma_take_set(v, i as int);
            let mid = store@;
            store.lemma_wf();
            lemma_unpublish_is_without(mid, v[i as int], w);
            lemma_without_without(
                d0,
                adverts(w, v.take(i as int).to_set()),
                set![(v[i as int], w)],
            );
            assert(adverts(w, v.take(i as int).to_set()).union(set![(v[i as int], w)]) =~= adverts(
                w,
                v.take(i + 1).to_set(),
            ));
        }
        store.unpublish(&paths[i], w);
        i += 1;
    }
    proof {
        assert(v.take(v.len() as int) =~= v);
    }
}

/// Notes in the registry that `w` has published each of `paths`.
fn claim(clients: &mut Registry, w: Endpoint, paths: &Vec<Path>)
    requires
        old(clients).wf(),
        old(clients)@.contains_key(w),
    ensures
        final(clients).wf(),
        final(clients)@ == old(clients)@.insert(
            w,
            RecordView {
                published: old(clients)@[w].published.union(path_views(paths@).to_set()),
                ..old(clients)@[w]
            },
        ),
{
    let ghost v = path_views(paths@);
    let ghost c0 = clients@;
    proof {
        assert(v.take(0).to_set() =~= Set::<Seq<u8>>::empty());
        assert(c0[w].published.union(Set::<Seq<u8>>::empty()) =~= c0[w].published);
        assert(c0 =~= c0.insert(w, c0[w]));
    }
    let mut i: usize = 0;
    while i < paths.len()
        invariant
            i <= paths.len(),
            v == path_views(paths@),
            clients.wf(),
            c0.contains_key(w),
            clients@ == c0.insert(
                w,
                RecordView {
                    published: c0[w].published.union(v.take(i as int).to_set()),
                    ..c0[w]
                },
            ),
        decreases paths.len() - i,
    {
        proof {
            assert(v[i as int] == paths@[i as int]@);
            lemma_take_set(v, i as int);
            assert(c0[w].published.union(v.take(i as int).to_set()).insert(v[i as int])
                =~= c0[w].published.union(v.take(i + 1).to_set()));
        }
        let ghost before = clients@;
        clients.add_path(w, paths[i].clone());
        proof {
            assert(clients@ =~= c0.insert(
                w,
                RecordView {
                    published: c0[w].published.union(v.take(i + 1).to_set()),
                    ..c0[w]
                },
            ));
        }
        i += 1;
    }
    proof {
        assert(v.take(v.len() as int) =~= v);
    }
}

/// Notes in the registry that `w` has withdrawn each of `paths`.
fn disclaim(clients: &mut Registry, w: Endpoint, paths: &Vec<Path>)
    requires
        old(clients).wf(),
        old(clients)@.contains_key(w),
    ensures
        final(clients).wf(),
        final(clients)@ == old(clients)@.insert(
            w,
            RecordView {
                published: old(clients)@[w].published.difference(path_views(paths@).to_set()),
                ..old(clients)@[w]
            },
        ),
{
    let ghost v = path_views(paths@);
    let ghost c0 = clients@;
    proof {
        assert(v.take(0).to_set() =~= Set::<Seq<u8>>::empty());
        assert(c0[w].published.difference(Set::<Seq<u8>>::empty()) =~= c0[w].published);
        assert(c0 =~= c0.insert(w, c0[w]));
    }
    let mut i: usize = 0;
    while i < paths.len()
        invariant
            i <= paths.len(),
            v == path_views(paths@),
            clients.wf(),
            c0.contains_key(w),
            clients@ == c0.insert(
                w,
                RecordView {
                    published: c0[w].published.difference(v.take(i as int).to_set()),
                    ..c0[w]
                },
            ),
        decreases paths.len() - i,
    {
        proof {
            assert(v[i as int] == paths@[i as int]@);
            lemma_take_set(v, i as int);
            assert(c0[w].published.difference(v.take(i as int).to_set()).remove(v[i as int])
                =~= c0[w].published.difference(v.take(i + 1).to_set()));
        }
        clients.remove_path(w, &paths[i]);
        proof {
            assert(clients@ =~= c0.insert(
                w,
                RecordView {
                    published: c0[w].published.difference(v.take(i + 1).to_set()),
                    ..c0[w]
                },
            ));
        }
        i += 1;
    }
    proof {
        assert(v.take(v.len() as int) =~= v);
    }
}

/// The directory and the registry of writers, kept in agreement.
#[derive(Debug)]
pub struct Context {
    store: Store,
    clients: Registry,
}

impl View for Context {
    type V = ServerState;

    closed spec fn view(&self) -> ServerState {
        ServerState { dir: self.store@, clients: self.clients@ }
    }
}

impl Context {
    /// The representation invariant: directory and registry are each
    /// well-formed, and they agree.
    pub closed spec fn wf(&self) -> bool {
        &&& self.store.wf()
        &&& self.clients.wf()
        &&& consistent(self@)
    }

    /// The registered writers, in the order in which the scavenger visits
    /// them.
    pub closed spec fn writers(&self) -> Seq<Endpoint> {
        self.clients.order()
    }

    /// In a well-formed context directory and registry agree, and `writers`
    /// lists each registered writer once.
    pub proof fn lemma_wf(&self)
        requires
            self.wf(),
        ensures
            consistent(self@),
            self.writers().no_duplicates(),
            forall|e: Endpoint| self.writers().contains(e) <==> self@.clients.contains_key(e),
    {
        self.clients.lemma_order();
    }

    /// A context without paths and without writers.
    pub fn new() -> (c: Context)
        ensures
            c.wf(),
            c@.dir == Map::<Seq<u8>, Seq<Endpoint>>::empty(),
            c@.clients == Map::<Endpoint, RecordView>::empty(),
    {
        let c = Context { store: Store::new(), clients: Registry::new() };
        proof {
            assert forall|e: Endpoint| #[trigger] owned(c@.dir, e) == claimed(c@.clients, e) by {
                assert(owned(c@.dir, e) =~= claimed(c@.clients, e));
            }
        }
        c
    }

    /// Whether a writer is registered for `addr`.
    pub fn is_registered(&self, addr: Endpoint) -> (b: bool)
        requires
            self.wf(),
        ensures
            b == self@.clients.contains_key(addr),
    {
        self.clients.contains(addr)
    }

    /// Answers a request to resolve `paths`: for each path the endpoints
    /// that serve it, or an error when a path is not absolute.
    pub fn resolve(&self, paths: &Vec<Path>) -> (r: FromResolver)
        requires
            self.wf(),
        ensures
            answers(self@, Request::Resolve(path_views(paths@)), r@),
    {
        if !paths_absolute(paths) {
            return relative_path_error();
        }
        let ghost v = path_views(paths@);
        let mut out: Vec<Vec<Endpoint>> = Vec::new();
        let mut i: usize = 0;
        while i < paths.len()
            invariant
                i <= paths.len(),
                self.wf(),
                v == path_views(paths@),
                out@.len() == i,
                forall|j: int|
                    0 <= j < i ==> (#[trigger] out@[j])@ == crate::store::endpoints_at(
                        self@.dir,
                        v[j],
                    ),
            decreases paths.len() - i,
        {
            let eps = self.store.resolve(&paths[i]);
            proof {
                assert(v[i as int] == paths@[i as int]@);
            }
            out.push(eps);
            i += 1;
        }
        proof {
            assert(endpoint_views(out@) =~= resolved(self@.dir, v));
        }
        FromResolver::Resolved(out)
    }

    /// Answers a request to list what lies below `prefix`: the paths of the
    /// directory strictly below it, ascending, or an error when the prefix
    /// is not absolute.
    pub fn list(&self, prefix: &Path) -> (r: FromResolver)
        requires
            self.wf(),
        ensures
            answers(self@, Request::List(prefix@), r@),
    {
        if !prefix.is_absolute() {
            return relative_path_error();
        }
        let l = self.store.list(prefix);
        let r = FromResolver::List(l);
        proof {
            let v = path_views(l@);
            lemma_path_views(l@);
            assert(crate::path::strictly_sorted(v));
            assert forall|s: Seq<u8>|
                v.contains(s) <==> self@.dir.contains_key(s) && crate::path::is_strict_descendant(
                    s,
                    prefix@,
                ) by {
                assert(crate::pathset::holds_path(l@, s) <==> v.contains(s));
            }
            assert(lists(self@.dir, prefix@, v));
            assert(r@ == crate::protocol::Response::List(v));
        }
        r
    }

    /// Serves a request to publish `paths` for the writer at `w`.
    fn publish(&mut self, w: Endpoint, paths: &Vec<Path>) -> (r: FromResolver)
        requires
            old(self).wf(),
            old(self)@.clients.contains_key(w),
        ensures
            final(self).wf(),
            final(self)@ == step(old(self)@, w, Request::Publish(path_views(paths@))),
            answers(old(self)@, Request::Publish(path_views(paths@)), r@),
    {
        if !paths_absolute(paths) {
            return relative_path_error();
        }
        advertise(&mut self.store, w, paths);
        claim(&mut self.clients, w, paths);
        proof {
            lemma_publish_consistent(old(self)@, w, path_views(paths@).to_set());
        }
        FromResolver::Published
    }

    /// Serves a request to unpublish `paths` for the writer at `w`.
    fn unpublish(&mut self, w: Endpoint, paths: &Vec<Path>) -> (r: FromResolver)
        requires
            old(self).wf(),
            old(self)@.clients.contains_key(w),
        ensures
            final(self).wf(),
            final(self)@ == step(old(self)@, w, Request::Unpublish(path_views(paths@))),
            answers(old(self)@, Request::Unpublish(path_views(paths@)), r@),
    {
        if !paths_absolute(paths) {
            return relative_path_error();
        }
        withdraw(&mut self.store, w, paths);
        disclaim(&mut self.clients, w, paths);
        proof {
            lemma_unpublish_consistent(old(self)@, w, path_views(paths@).to_set());
        }
        FromResolver::Unpublished
    }

    /// Serves a request of the writer at `w` to withdraw all its paths.
    fn clear(&mut self, w: Endpoint) -> (r: FromResolver)
        requires
            old(self).wf(),
            old(self)@.clients.contains_key(w),
        ensures
            final(self).wf(),
            final(self)@ == step(old(self)@, w, Request::Clear),
            answers(old(self)@, Request::Clear, r@),
    {
        let ghost s0 = self@;
        match self.clients.published(w) {
            Some(paths) => {
                withdraw(&mut self.store, w, &paths);
                proof {
                    lemma_path_views(paths@);
                    assert(owned(s0.dir, w) == claimed(s0.clients, w));
                    lemma_without_agree(
                        s0.dir,
                        adverts(w, path_views(paths@).to_set()),
                        all_adverts(set![w]),
                    );
                }
            },
            None => {},
        }
        self.clients.clear_paths(w);
        proof {
            lemma_clear_consistent(s0, w);
        }
        FromResolver::Unpublished
    }

    /// Forgets the writer at `addr`: its record goes, and so does every
    /// advertisement of its endpoint. Returns the cancellation handle of
    /// its session, to be signalled. Nothing changes when no writer is
    /// registered for `addr`.
    pub fn timeout_client(&mut self, addr: Endpoint) -> (r: Option<u64>)
        requires
            old(self).wf(),
        ensures
            final(self).wf(),
            old(self)@.clients.contains_key(addr) ==> r == Some(old(self)@.clients[addr].cancel)
                && final(self)@ == state_forget(old(self)@, set![addr]),
            !old(self)@.clients.contains_key(addr) ==> r.is_none() && final(self)@ == old(self)@,
    {
        let ghost s0 = self@;
        match self.clients.forget(addr) {
            Some(f) => {
                withdraw(&mut self.store, addr, &f.published);
                proof {
                    lemma_path_views(f.published@);
                    assert(owned(s0.dir, addr) == claimed(s0.clients, addr));
                    lemma_without_agree(
                        s0.dir,
                        adverts(addr, path_views(f.published@).to_set()),
                        all_adverts(set![addr]),
                    );
                    assert(s0.clients.remove(addr) =~= s0.clients.remove_keys(set![addr]));
                    lemma_forget_consistent(s0, set![addr]);
                }
                Some(f.cancel)
            },
            None => {
                proof {
                    assert(s0.clients.remove(addr) =~= s0.clients);
                }
                None
            },
        }
    }

    /// One run of the scavenger at time `now`: every writer that has
    /// expired is forgotten. Returns the cancellation handles of their
    /// sessions, to be signalled, in the order of `writers`.
    pub fn scavenge(&mut self, now: u64) -> (r: Vec<u64>)
        requires
            old(self).wf(),
        ensures
            final(self).wf(),
            final(self)@ == state_scavenge(old(self)@, now),
            r@ == expired_writers(old(self)@.clients, old(self).writers(), now).map_values(
                |e: Endpoint| old(self)@.clients[e].cancel,
            ),
    {
        let ghost s0 = self@;
        let gone = self.clients.expire(now);
        let ghost g = gone@;
        proof {
            self.clients.lemma_order();
            lemma_expired_writers(s0.clients, self.clients.order(), now);
            lemma_nothing(s0.dir, gone@[0]);
            self.store.lemma_wf();
            assert(g.take(0).to_set() =~= Set::<Endpoint>::empty());
            assert(all_adverts(Set::<Endpoint>::empty()) =~= Set::<(Seq<u8>, Endpoint)>::empty());
            assert(s0.clients.remove_keys(Set::<Endpoint>::empty()) =~= s0.clients);
        }
        let mut out: Vec<u64> = Vec::new();
        let mut i: usize = 0;
        while i < gone.len()
            invariant
                i <= gone.len(),
                g == gone@,
                g.no_duplicates(),
                g.to_set() == expired_set(s0.clients, now),
                self.wf(),
                self@ == state_forget(s0, g.take(i as int).to_set()),
                out@.len() == i,
                forall|j: int| 0 <= j < i ==> out@[j] == s0.clients[#[trigger] g[j]].cancel,
            decreases gone.len() - i,
        {
            let ghost mid = self@;
            let ghost done = g.take(i as int).to_set();
            let e = gone[i];
            proof {
                lemma_take_set(g, i as int);
                assert(g.contains(e));
                assert(g.to_set().contains(e));
                assert(!done.contains(e)) by {
                    if g.take(i as int).contains(e) {
                        let k = choose|k: int| 0 <= k < i && g.take(i as int)[k] == e;
                        assert(g[k] == g[i as int]);
                    }
                }
                assert(mid.clients.contains_key(e));
                assert(mid.clients[e] == s0.clients[e]);
                lemma_without_without(s0.dir, all_adverts(done), all_adverts(set![e]));
                assert(all_adverts(done).union(all_adverts(set![e])) =~= all_adverts(
                    done.insert(e),
                ));
                assert(s0.clients.remove_keys(done).remove_keys(set![e]) =~= s0.clients.remove_keys(
                    done.insert(e),
                ));
            }
            match self.timeout_client(e) {
                Some(c) => {
                    out.push(c);
                },
                None => {},
            }
            i += 1;
        }
        proof {
            assert(g.take(g.len() as int) =~= g);
            assert(out@ =~= g.map_values(|e: Endpoint| s0.clients[e].cancel));
        }
        out
    }

    /// Takes the hello of a client. `peer` is the address the connection
    /// comes from, `cancel` the handle by which the new session can be
    /// cancelled.
    ///
    /// A client that only reads is welcomed without a change to the
    /// registry. A writer is registered, or noted as back, when the time to
    /// live it asks for is in range; otherwise the session ends. So does a
    /// session that had taken a hello before.
    pub fn hello(
        &mut self,
        session: &mut Session,
        hello: ClientHello,
        peer: Endpoint,
        cancel: u64,
        now: u64,
    ) -> (r: Result<Welcome, SessionError>)
        requires
            old(self).wf(),
        ensures
            final(self).wf(),
            !(*old(session) is AwaitHello) ==> {
                &&& r == Err::<Welcome, SessionError>(
                    if *old(session) is Closed {
                        SessionError::Closed
                    } else {
                        SessionError::WrongPhase
                    },
                )
                &&& *final(session) == Session::Closed
                &&& final(self)@ == old(self)@
            },
            *old(session) is AwaitHello ==> match hello {
                ClientHello::ReadOnly => {
                    &&& r == Ok::<Welcome, SessionError>(
                        Welcome { reply: ServerHello { ttl_expired: false }, signal: None },
                    )
                    &&& *final(session) == Session::ReadOnly {
                        peer,
                        ttl: READ_ONLY_TTL,
                        last_seen: now,
                    }
                    &&& final(self)@ == old(self)@
                },
                ClientHello::ReadWrite { ttl, write_addr } => if MIN_TTL <= ttl <= MAX_TTL {
                    &&& r == Ok::<Welcome, SessionError>(
                        Welcome {
                            reply: ServerHello {
                                ttl_expired: !old(self)@.clients.contains_key(write_addr),
                            },
                            signal: if old(self)@.clients.contains_key(write_addr) {
                                Some(old(self)@.clients[write_addr].cancel)
                            } else {
                                None
                            },
                        },
                    )
                    &&& *final(session) == Session::ReadWrite { write_addr }
                    &&& final(self)@ == state_upsert(old(self)@, write_addr, ttl, cancel, now)
                } else {
                    &&& r == Err::<Welcome, SessionError>(SessionError::TtlOutOfRange)
                    &&& *final(session) == Session::Closed
                    &&& final(self)@ == old(self)@
                },
            },
    {
        match *session {
            Session::AwaitHello => {},
            Session::Closed => {
                return Err(SessionError::Closed);
            },
            _ => {
                *session = Session::Closed;
                return Err(SessionError::WrongPhase);
            },
        }
        match hello {
            ClientHello::ReadOnly => {
                *session = Session::ReadOnly { peer, ttl: READ_ONLY_TTL, last_seen: now };
                Ok(Welcome { reply: ServerHello { ttl_expired: false }, signal: None })
            },
            ClientHello::ReadWrite { ttl, write_addr } => {
                if ttl < MIN_TTL || ttl > MAX_TTL {
                    *session = Session::Closed;
                    return Err(SessionError::TtlOutOfRange);
                }
                let up = self.clients.upsert(write_addr, ttl, cancel, now);
                proof {
                    lemma_upsert_consistent(old(self)@, write_addr, ttl, cancel, now);
                }
                *session = Session::ReadWrite { write_addr };
                Ok(Welcome { reply: ServerHello { ttl_expired: up.ttl_expired }, signal: up.signal })
            },
        }
    }

    /// Answers a batch that only reads, from the directory as it stands.
    /// Returns `None`, and answers nothing, when one of the requests asks
    /// for a change.
    pub fn read_batch(&self, batch: &Vec<ToResolver>) -> (r: Option<Vec<FromResolver>>)
        requires
            self.wf(),
        ensures
            r is Some == !any_needs_write(batch@),
            r matches Some(out) ==> out@.len() == batch@.len() && forall|i: int|
                0 <= i < batch@.len() ==> answers(self@, (#[trigger] batch@[i])@, out@[i]@),
    {
        if batch_needs_write(batch) {
            return None;
        }
        let mut out: Vec<FromResolver> = Vec::new();
        let mut i: usize = 0;
        while i < batch.len()
            invariant
                i <= batch.len(),
                self.wf(),
                !any_needs_write(batch@),
                out@.len() == i,
                forall|j: int| 0 <= j < i ==> answers(self@, (#[trigger] batch@[j])@, out@[j]@),
            decreases batch.len() - i,
        {
            proof {
                assert(!batch@[i as int]@.needs_write());
            }
            let resp = match &batch[i] {
                ToResolver::Resolve(paths) => self.resolve(paths),
                ToResolver::List(prefix) => self.list(prefix),
                _ => relative_path_error(),
            };
            out.push(resp);
            i += 1;
        }
        Some(out)
    }

    /// Serves one request of the writer at `w`.
    fn serve(&mut self, w: Endpoint, req: &ToResolver) -> (r: FromResolver)
        requires
            old(self).wf(),
            old(self)@.clients.contains_key(w),
        ensures
            final(self).wf(),
            final(self)@ == step(old(self)@, w, req@),
            final(self)@.clients.contains_key(w),
            answers(old(self)@, req@, r@),
    {
        match req {
            ToResolver::Resolve(paths) => self.resolve(paths),
            ToResolver::List(prefix) => self.list(prefix),
            ToResolver::Publish(paths) => self.publish(w, paths),
            ToResolver::Unpublish(paths) => self.unpublish(w, paths),
            ToResolver::Clear => self.clear(w),
        }
    }

    /// Serves the requests of the writer at `w`, first to last.
    fn serve_all(&mut self, w: Endpoint, batch: &Vec<ToResolver>) -> (out: Vec<FromResolver>)
        requires
            old(self).wf(),
            old(self)@.clients.contains_key(w),
        ensures
            final(self).wf(),
            final(self)@ == run(old(self)@, w, request_views(batch@)),
            out@.len() == batch@.len(),
            forall|i: int|
                0 <= i < batch@.len() ==> answers(
                    run(old(self)@, w, request_views(batch@).take(i)),
                    (#[trigger] batch@[i])@,
                    out@[i]@,
                ),
    {
        let ghost start = self@;
        let mut out: Vec<FromResolver> = Vec::new();
        let mut i: usize = 0;
        proof {
            lemma_served_none(start, w, batch@, out@);
        }
        while i < batch.len()
            invariant
                i <= batch.len(),
                self.wf(),
                self@.clients.contains_key(w),
                self@ == ran(start, w, batch@, i as int),
                out@.len() == i,
                served(start, w, batch@, out@, i as int),
            decreases batch.len() - i,
        {
            let resp = self.serve(w, &batch[i]);
            proof {
                lemma_served_push(start, w, batch@, out@, i as int, resp);
            }
            out.push(resp);
            i += 1;
        }
        proof {
            lemma_served_all(start, w, batch@, out@);
        }
        out
    }

    /// Serves a batch of requests, as under one lock: the requests are
    /// served first to last, each in the state that the ones before it have
    /// left, and the answers come back in the order of the requests.
    ///
    /// The session ends, and nothing changes, when it is not running, when
    /// a client that only reads asks for a change, and when the writer's
    /// record is gone. Otherwise the client is noted as heard from at
    /// `now`.
    pub fn handle_batch(&mut self, session: &mut Session, batch: &Vec<ToResolver>, now: u64) -> (r:
        Result<Vec<FromResolver>, SessionError>)
        requires
            old(self).wf(),
        ensures
            final(self).wf(),
            r is Err ==> r == Err::<Vec<FromResolver>, SessionError>(
                batch_fault(*old(session), old(self)@, batch@)->0,
            ) && *final(session) == Session::Closed && final(self)@ == old(self)@,
            r is Err <==> batch_fault(*old(session), old(self)@, batch@) is Some,
            r matches Ok(out) ==> {
                let w = old(session).addr();
                let start = batch_start(*old(session), old(self)@, now);
                &&& *final(session) == old(session).heard(now)
                &&& final(self)@ == run(start, w, request_views(batch@))
                &&& out@.len() == batch@.len()
                &&& forall|i: int|
                    0 <= i < batch@.len() ==> answers(
                        run(start, w, request_views(batch@).take(i)),
                        (#[trigger] batch@[i])@,
                        out@[i]@,
                    )
            },
    {
        match *session {
            Session::AwaitHello => {
                *session = Session::Closed;
                Err(SessionError::WrongPhase)
            },
            Session::Closed => Err(SessionError::Closed),
            Session::ReadOnly { peer, .. } => {
                match self.read_batch(batch) {
                    None => {
                        *session = Session::Closed;
                        Err(SessionError::ReadOnly)
                    },
                    Some(out) => {
                        session.touch(now);
                        proof {
                            lemma_read_batch(self@, peer, batch@);
                        }
                        Ok(out)
                    },
                }
            },
            Session::ReadWrite { write_addr } => {
                if !self.clients.touch(write_addr, now) {
                    *session = Session::Closed;
                    return Err(SessionError::Expired);
                }
                proof {
                    lemma_touch_consistent(old(self)@, write_addr, now);
                }
                Ok(self.serve_all(write_addr, batch))
            },
        }
    }
}

/// The state after the first `n` requests of `batch`.
spec fn ran(start: ServerState, w: Endpoint, batch: Seq<ToResolver>, n: int) -> ServerState {
    run(start, w, request_views(batch).take(n))
}

/// Each of the first `n` requests of `batch` has its answer in `out`.
#[verifier::opaque]
spec fn served(
    start: ServerState,
    w: Endpoint,
    batch: Seq<ToResolver>,
    out: Seq<FromResolver>,
    n: int,
) -> bool {
    forall|j: int|
        0 <= j < n ==> answers(
            run(start, w, request_views(batch).take(j)),
            (#[trigger] batch[j])@,
            out[j]@,
        )
}

proof fn lemma_served_none(
    start: ServerState,
    w: Endpoint,
    batch: Seq<ToResolver>,
    out: Seq<FromResolver>,
)
    ensures
        served(start, w, batch, out, 0),
        ran(start, w, batch, 0) == start,
{
    reveal(served);
}

proof fn lemma_served_push(
    start: ServerState,
    w: Endpoint,
    batch: Seq<ToResolver>,
    out: Seq<FromResolver>,
    n: int,
    resp: FromResolver,
)
    requires
        0 <= n < batch.len(),
        out.len() == n,
        served(start, w, batch, out, n),
        answers(ran(start, w, batch, n), batch[n]@, resp@),
    ensures
        served(start, w, batch, out.push(resp), n + 1),
        ran(start, w, batch, n + 1) == step(ran(start, w, batch, n), w, batch[n]@),
{
    reveal(served);
    let reqs = request_views(batch);
    assert(reqs.take(n + 1).drop_last() =~= reqs.take(n));
    assert(reqs.take(n + 1).last() == batch[n]@);
    let next = out.push(resp);
    assert forall|j: int| 0 <= j < n + 1 implies answers(
        run(start, w, reqs.take(j)),
        (#[trigger] batch[j])@,
        next[j]@,
    ) by {
        if j < n {
            assert(next[j] == out[j]);
        }
    }
}

proof fn lemma_served_all(
    start: ServerState,
    w: Endpoint,
    batch: Seq<ToResolver>,
    out: Seq<FromResolver>,
)
    requires
        served(start, w, batch, out, batch.len() as int),
    ensures
        ran(start, w, batch, batch.len() as int) == run(start, w, request_views(batch)),
        forall|i: int|
            0 <= i < batch.len() ==> answers(
                run(start, w, request_views(batch).take(i)),
                (#[trigger] batch[i])@,
                out[i]@,
            ),
{
    reveal(served);
    let reqs = request_views(batch);
    assert(reqs.take(reqs.len() as int) =~= reqs);
}

/// A batch that only reads leaves the state as it is, however far it has
/// got.
proof fn lemma_read_batch(s: ServerState, w: Endpoint, batch: Seq<ToResolver>)
    requires
        !any_needs_write(batch),
    ensures
        forall|i: int|
            0 <= i <= batch.len() ==> run(s, w, #[trigger] request_views(batch).take(i)) == s,
        run(s, w, request_views(batch)) == s,
{
    let reqs = request_views(batch);
    assert forall|i: int| 0 <= i <= reqs.len() implies run(s, w, #[trigger] reqs.take(i)) == s by {
        assert forall|j: int| 0 <= j < i implies !(#[trigger] reqs.take(i)[j]).needs_write() by {
            assert(reqs.take(i)[j] == batch[j]@);
        }
        lemma_reads_change_nothing(s, w, reqs.take(i));
    }
    assert(reqs.take(reqs.len() as int) =~= reqs);
}

} // verus!
