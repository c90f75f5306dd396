//! The state of the server as a mathematical value, what each request does
//! to it, and what holds of it whatever the requests.

use vstd::prelude::*;
use crate::directory::{
    adverts, all_absolute, dir_with, dir_without, lemma_owned_with, lemma_owned_without,
    lemma_publish_is_with, lemma_unpublish_is_without, lemma_with_wf, lemma_without_members,
    lemma_without_wf,
};
use crate::endpoint::Endpoint;
use crate::path::{is_absolute, is_strict_descendant, lemma_sorted_determined, strictly_sorted};
use crate::protocol::{Request, Response, ToResolver};
use crate::registry::{expired, expired_set, RecordView};
use crate::store::{changes_acceptable, dir_change, dir_wf, endpoints_at, owned, Action, Change};

verus! {

/// The directory and the registry of writers.
pub struct ServerState {
    pub dir: Map<Seq<u8>, Seq<Endpoint>>,
    pub clients: Map<Endpoint, RecordView>,
}

/// The paths that the registry holds for `e`: none for an endpoint without
/// a record.
pub open spec fn claimed(clients: Map<Endpoint, RecordView>, e: Endpoint) -> Set<Seq<u8>> {
    if clients.contains_key(e) {
        clients[e].published
    } else {
        Set::empty()
    }
}

/// Directory and registry agree: the directory holds an endpoint at a path
/// exactly when the registry holds the path for the writer at that endpoint.
pub open spec fn consistent(s: ServerState) -> bool {
    &&& dir_wf(s.dir)
    &&& forall|e: Endpoint| #[trigger] owned(s.dir, e) == claimed(s.clients, e)
}

/// Every advertisement of the endpoints `es`, at whatever path.
pub open spec fn all_adverts(es: Set<Endpoint>) -> Set<(Seq<u8>, Endpoint)> {
    Set::new(|a: (Seq<u8>, Endpoint)| es.contains(a.1))
}

/// The text of the error that answers a path that is not absolute.
pub open spec fn relative_path() -> Seq<char> {
    "relative path"@
}

/// The state after the writer at `w` has said hello at time `now`.
pub open spec fn state_upsert(s: ServerState, w: Endpoint, ttl: u64, cancel: u64, now: u64) -> ServerState {
    let record = if s.clients.contains_key(w) {
        RecordView { last_seen: now, cancel, ..s.clients[w] }
    } else {
        RecordView { ttl, last_seen: now, published: Set::empty(), cancel }
    };
    ServerState { dir: s.dir, clients: s.clients.insert(w, record) }
}

/// The state after the writer at `w` was heard from at time `now`.
pub open spec fn state_touch(s: ServerState, w: Endpoint, now: u64) -> ServerState {
    ServerState {
        dir: s.dir,
        clients: s.clients.insert(w, RecordView { last_seen: now, ..s.clients[w] }),
    }
}

/// The state after the writer at `w` has published the paths `ps`.
pub open spec fn state_publish(s: ServerState, w: Endpoint, ps: Set<Seq<u8>>) -> ServerState {
    ServerState {
        dir: dir_with(s.dir, w, ps),
        clients: s.clients.insert(
            w,
            RecordView { published: s.clients[w].published.union(ps), ..s.clients[w] },
        ),
    }
}

/// The state after the writer at `w` has withdrawn the paths `ps`.
pub open spec fn state_unpublish(s: ServerState, w: Endpoint, ps: Set<Seq<u8>>) -> ServerState {
    ServerState {
        dir: dir_without(s.dir, adverts(w, ps)),
        clients: s.clients.insert(
            w,
            RecordView { published: s.clients[w].published.difference(ps), ..s.clients[w] },
        ),
    }
}

/// The state after the writer at `w` has withdrawn all its paths.
pub open spec fn state_clear(s: ServerState, w: Endpoint) -> ServerState {
    ServerState {
        dir: dir_without(s.dir, all_adverts(set![w])),
        clients: s.clients.insert(
            w,
            RecordView { published: Set::empty(), ..s.clients[w] },
        ),
    }
}

/// The state after the writers at `es` are forgotten: their records are
/// gone, and so are their advertisements.
pub open spec fn state_forget(s: ServerState, es: Set<Endpoint>) -> ServerState {
    ServerState { dir: dir_without(s.dir, all_adverts(es)), clients: s.clients.remove_keys(es) }
}

/// The state after the scavenger has run at time `now`: every writer that
/// has expired is forgotten.
pub open spec fn state_scavenge(s: ServerState, now: u64) -> ServerState {
    state_forget(s, expired_set(s.clients, now))
}

/// The state after the writer at `w` has made the request `req`. A request
/// that names a path which is not absolute changes nothing; neither does a
/// request that only reads.
pub open spec fn step(s: ServerState, w: Endpoint, req: Request) -> ServerState {
    match req {
        Request::Publish(ps) => if all_absolute(ps.to_set()) {
            state_publish(s, w, ps.to_set())
        } else {
            s
        },
        Request::Unpublish(ps) => if all_absolute(ps.to_set()) {
            state_unpublish(s, w, ps.to_set())
        } else {
            s
        },
        Request::Clear => state_clear(s, w),
        Request::Resolve(_) => s,
        Request::List(_) => s,
    }
}

/// The state after the writer at `w` has made the requests `reqs`, first to
/// last.
pub open spec fn run(s: ServerState, w: Endpoint, reqs: Seq<Request>) -> ServerState
    decreases reqs.len(),
{
    if reqs.len() == 0 {
        s
    } else {
        step(run(s, w, reqs.drop_last()), w, reqs.last())
    }
}

/// The endpoints of each path of `ps`, as `dir` holds them.
pub open spec fn resolved(dir: Map<Seq<u8>, Seq<Endpoint>>, ps: Seq<Seq<u8>>) -> Seq<
    Seq<Endpoint>,
> {
    ps.map_values(|p: Seq<u8>| endpoints_at(dir, p))
}

/// `l` lists the paths of `dir` strictly below `prefix`, ascending.
pub open spec fn lists(dir: Map<Seq<u8>, Seq<Endpoint>>, prefix: Seq<u8>, l: Seq<Seq<u8>>) -> bool {
    &&& strictly_sorted(l)
    &&& forall|s: Seq<u8>| l.contains(s) <==> dir.contains_key(s) && is_strict_descendant(s, prefix)
}

/// `resp` is the answer that the request `req` gets in state `s`.
pub open spec fn answers(s: ServerState, req: Request, resp: Response) -> bool {
    match req {
        Request::Resolve(ps) => if all_absolute(ps.to_set()) {
            resp == Response::Resolved(resolved(s.dir, ps))
        } else {
            resp == Response::Error(relative_path())
        },
        Request::List(p) => if is_absolute(p) {
            resp matches Response::List(l) && lists(s.dir, p, l)
        } else {
            resp == Response::Error(relative_path())
        },
        Request::Publish(ps) => if all_absolute(ps.to_set()) {
            resp == Response::Published
        } else {
            resp == Response::Error(relative_path())
        },
        Request::Unpublish(ps) => if all_absolute(ps.to_set()) {
            resp == Response::Unpublished
        } else {
            resp == Response::Error(relative_path())
        },
        Request::Clear => resp == Response::Unpublished,
    }
}

/// The views of the requests of a batch.
pub open spec fn request_views(batch: Seq<ToResolver>) -> Seq<Request> {
    batch.map_values(|r: ToResolver| r@)
}

/// A request has one answer only.
pub proof fn lemma_answer_unique(s: ServerState, req: Request, r1: Response, r2: Response)
    requires
        answers(s, req, r1),
        answers(s, req, r2),
    ensures
        r1 == r2,
{
    if let Request::List(p) = req {
        if is_absolute(p) {
            let l1 = r1->List_0;
            let l2 = r2->List_0;
            assert(l1.to_set() =~= l2.to_set());
            lemma_sorted_determined(l1, l2);
        }
    }
}

/// Requests that only read leave the state as it is.
pub proof fn lemma_reads_change_nothing(s: ServerState, w: Endpoint, reqs: Seq<Request>)
    requires
        forall|i: int| 0 <= i < reqs.len() ==> !(#[trigger] reqs[i]).needs_write(),
    ensures
        run(s, w, reqs) == s,
    decreases reqs.len(),
{
    if reqs.len() > 0 {
        lemma_reads_change_nothing(s, w, reqs.drop_last());
        assert(!reqs[reqs.len() - 1].needs_write());
    }
}

/// A hello keeps directory and registry in agreement.
pub proof fn lemma_upsert_consistent(s: ServerState, w: Endpoint, ttl: u64, cancel: u64, now: u64)
    requires
        consistent(s),
    ensures
        consistent(state_upsert(s, w, ttl, cancel, now)),
{
    let t = state_upsert(s, w, ttl, cancel, now);
    assert forall|e: Endpoint| #[trigger] owned(t.dir, e) == claimed(t.clients, e) by {
        assert(owned(s.dir, e) == claimed(s.clients, e));
    }
}

/// Being heard from keeps directory and registry in agreement.
pub proof fn lemma_touch_consistent(s: ServerState, w: Endpoint, now: u64)
    requires
        consistent(s),
        s.clients.contains_key(w),
    ensures
        consistent(state_touch(s, w, now)),
{
    let t = state_touch(s, w, now);
    assert forall|e: Endpoint| #[trigger] owned(t.dir, e) == claimed(t.clients, e) by {
        assert(owned(s.dir, e) == claimed(s.clients, e));
    }
}

/// Publishing keeps directory and registry in agreement.
pub proof fn lemma_publish_consistent(s: ServerState, w: Endpoint, ps: Set<Seq<u8>>)
    requires
        consistent(s),
        s.clients.contains_key(w),
        all_absolute(ps),
    ensures
        consistent(state_publish(s, w, ps)),
{
    let t = state_publish(s, w, ps);
    lemma_with_wf(s.dir, w, ps);
    assert forall|e: Endpoint| #[trigger] owned(t.dir, e) == claimed(t.clients, e) by {
        assert(owned(s.dir, e) == claimed(s.clients, e));
        lemma_owned_with(s.dir, w, ps, e);
    }
}

/// Withdrawing keeps directory and registry in agreement.
pub proof fn lemma_unpublish_consistent(s: ServerState, w: Endpoint, ps: Set<Seq<u8>>)
    requires
        consistent(s),
        s.clients.contains_key(w),
    ensures
        consistent(state_unpublish(s, w, ps)),
{
    let t = state_unpublish(s, w, ps);
    lemma_without_wf(s.dir, adverts(w, ps));
    assert forall|e: Endpoint| #[trigger] owned(t.dir, e) == claimed(t.clients, e) by {
        assert(owned(s.dir, e) == claimed(s.clients, e));
        lemma_owned_without(s.dir, adverts(w, ps), e);
        assert(owned(t.dir, e) =~= claimed(t.clients, e));
    }
}

/// Withdrawing everything keeps directory and registry in agreement.
pub proof fn lemma_clear_consistent(s: ServerState, w: Endpoint)
    requires
        consistent(s),
        s.clients.contains_key(w),
    ensures
        consistent(state_clear(s, w)),
{
    let t = state_clear(s, w);
    lemma_without_wf(s.dir, all_adverts(set![w]));
    assert forall|e: Endpoint| #[trigger] owned(t.dir, e) == claimed(t.clients, e) by {
        assert(owned(s.dir, e) == claimed(s.clients, e));
        lemma_owned_without(s.dir, all_adverts(set![w]), e);
        assert(owned(t.dir, e) =~= claimed(t.clients, e));
    }
}

/// Forgetting writers keeps directory and registry in agreement.
pub proof fn lemma_forget_consistent(s: ServerState, es: Set<Endpoint>)
    requires
        consistent(s),
    ensures
        consistent(state_forget(s, es)),
{
    let t = state_forget(s, es);
    lemma_without_wf(s.dir, all_adverts(es));
    assert forall|e: Endpoint| #[trigger] owned(t.dir, e) == claimed(t.clients, e) by {
        assert(owned(s.dir, e) == claimed(s.clients, e));
        lemma_owned_without(s.dir, all_adverts(es), e);
        assert(owned(t.dir, e) =~= claimed(t.clients, e));
    }
}

/// Every request of a registered writer keeps directory and registry in
/// agreement, and keeps the writer registered.
pub proof fn lemma_step_consistent(s: ServerState, w: Endpoint, req: Request)
    requires
        consistent(s),
        s.clients.contains_key(w),
    ensures
        consistent(step(s, w, req)),
        step(s, w, req).clients.dom() == s.clients.dom(),
{
    match req {
        Request::Publish(ps) => {
            if all_absolute(ps.to_set()) {
                lemma_publish_consistent(s, w, ps.to_set());
            }
        },
        Request::Unpublish(ps) => {
            lemma_unpublish_consistent(s, w, ps.to_set());
        },
        Request::Clear => {
            lemma_clear_consistent(s, w);
        },
        _ => {},
    }
    assert(step(s, w, req).clients.dom() =~= s.clients.dom());
}

/// Every batch of a registered writer keeps directory and registry in
/// agreement, and keeps the writer registered.
pub proof fn lemma_run_consistent(s: ServerState, w: Endpoint, reqs: Seq<Request>)
    requires
        consistent(s),
        s.clients.contains_key(w),
    ensures
        consistent(run(s, w, reqs)),
        run(s, w, reqs).clients.dom() == s.clients.dom(),
    decreases reqs.len(),
{
    if reqs.len() > 0 {
        lemma_run_consistent(s, w, reqs.drop_last());
        lemma_step_consistent(run(s, w, reqs.drop_last()), w, reqs.last());
    }
}

/// The paths that a writer holds after its requests `reqs`, given those
/// that it held before: a publication adds its paths, a withdrawal takes
/// its paths out, and a request that is refused changes nothing.
pub open spec fn held_after_requests(start: Set<Seq<u8>>, reqs: Seq<Request>) -> Set<Seq<u8>>
    decreases reqs.len(),
{
    if reqs.len() == 0 {
        start
    } else {
        let before = held_after_requests(start, reqs.drop_last());
        match reqs.last() {
            Request::Publish(ps) => if all_absolute(ps.to_set()) {
                before.union(ps.to_set())
            } else {
                before
            },
            Request::Unpublish(ps) => if all_absolute(ps.to_set()) {
                before.difference(ps.to_set())
            } else {
                before
            },
            Request::Clear => Set::empty(),
            _ => before,
        }
    }
}

/// Whatever a registered writer asks for, the paths that resolve to it
/// afterwards are those that its requests add up to, and every other
/// endpoint holds what it held.
pub proof fn lemma_writer_holds(s: ServerState, w: Endpoint, reqs: Seq<Request>)
    requires
        consistent(s),
        s.clients.contains_key(w),
    ensures
        owned(run(s, w, reqs).dir, w) == held_after_requests(owned(s.dir, w), reqs),
        forall|x: Endpoint| x != w ==> #[trigger] owned(run(s, w, reqs).dir, x) == owned(s.dir, x),
    decreases reqs.len(),
{
    if reqs.len() > 0 {
        let init = reqs.drop_last();
        let mid = run(s, w, init);
        let t = run(s, w, reqs);
        lemma_writer_holds(s, w, init);
        lemma_run_consistent(s, w, init);
        lemma_step_consistent(mid, w, reqs.last());
        assert(mid.clients.contains_key(w));
        assert(owned(mid.dir, w) == claimed(mid.clients, w));
        assert(owned(t.dir, w) == claimed(t.clients, w));
        assert(owned(t.dir, w) =~= held_after_requests(owned(s.dir, w), reqs));
        assert forall|x: Endpoint| x != w implies #[trigger] owned(t.dir, x) == owned(
            s.dir,
            x,
        ) by {
            assert(owned(mid.dir, x) == claimed(mid.clients, x));
            assert(owned(t.dir, x) == claimed(t.clients, x));
            assert(owned(mid.dir, x) == owned(s.dir, x));
            assert(t.clients.contains_key(x) == mid.clients.contains_key(x));
            if mid.clients.contains_key(x) {
                assert(t.clients[x] == mid.clients[x]);
            }
        }
    }
}

/// A publication is applied whole or not at all: either every path of the
/// request resolves to the writer afterwards, or the state is as it was.
pub proof fn lemma_publish_whole(s: ServerState, w: Endpoint, ps: Seq<Seq<u8>>)
    ensures
        all_absolute(ps.to_set()) ==> forall|i: int|
            0 <= i < ps.len() ==> endpoints_at(
                step(s, w, Request::Publish(ps)).dir,
                #[trigger] ps[i],
            ).contains(w),
        !all_absolute(ps.to_set()) ==> step(s, w, Request::Publish(ps)) == s,
{
    if all_absolute(ps.to_set()) {
        let t = step(s, w, Request::Publish(ps));
        assert forall|i: int| 0 <= i < ps.len() implies endpoints_at(
            t.dir,
            #[trigger] ps[i],
        ).contains(w) by {
            let p = ps[i];
            assert(ps.to_set().contains(p));
            if !endpoints_at(s.dir, p).contains(w) {
                let pushed = endpoints_at(s.dir, p).push(w);
                assert(pushed[pushed.len() - 1] == w);
            }
        }
    }
}

/// After the scavenger has run, a writer that had expired is forgotten:
/// it has no record, and no path resolves to its endpoint. The other
/// writers keep their records and their paths.
pub proof fn lemma_scavenge_revokes(s: ServerState, now: u64, w: Endpoint)
    requires
        consistent(s),
        s.clients.contains_key(w),
    ensures
        consistent(state_scavenge(s, now)),
        expired(s.clients[w], now) ==> !state_scavenge(s, now).clients.contains_key(w) && forall|
            p: Seq<u8>,
        |
            !endpoints_at(state_scavenge(s, now).dir, p).contains(w),
        !expired(s.clients[w], now) ==> state_scavenge(s, now).clients.contains_key(w)
            && state_scavenge(s, now).clients[w] == s.clients[w] && owned(
            state_scavenge(s, now).dir,
            w,
        ) == owned(s.dir, w),
{
    let es = expired_set(s.clients, now);
    let t = state_scavenge(s, now);
    lemma_forget_consistent(s, es);
    if expired(s.clients[w], now) {
        assert forall|p: Seq<u8>| !endpoints_at(t.dir, p).contains(w) by {
            lemma_without_members(s.dir, all_adverts(es), p, w);
        }
    } else {
        lemma_owned_without(s.dir, all_adverts(es), w);
        assert(owned(t.dir, w) =~= owned(s.dir, w));
    }
}

/// A writer without a record that says hello and then publishes `ps` holds
/// exactly the paths `ps` afterwards, in the directory and in the registry.
pub proof fn lemma_republish_restores(
    s: ServerState,
    w: Endpoint,
    ttl: u64,
    cancel: u64,
    now: u64,
    ps: Seq<Seq<u8>>,
)
    requires
        consistent(s),
        !s.clients.contains_key(w),
        all_absolute(ps.to_set()),
    ensures
        ({
            let t = step(state_upsert(s, w, ttl, cancel, now), w, Request::Publish(ps));
            &&& consistent(t)
            &&& owned(t.dir, w) == ps.to_set()
            &&& t.clients[w].published == ps.to_set()
        }),
{
    let greeted = state_upsert(s, w, ttl, cancel, now);
    lemma_upsert_consistent(s, w, ttl, cancel, now);
    lemma_publish_consistent(greeted, w, ps.to_set());
    let t = step(greeted, w, Request::Publish(ps));
    assert(owned(s.dir, w) == claimed(s.clients, w));
    lemma_owned_with(greeted.dir, w, ps.to_set(), w);
    assert(owned(t.dir, w) =~= ps.to_set());
    assert(t.clients[w].published =~= ps.to_set());
}

/// The paths that one writer holds after a sequence of its own changes,
/// given those that it held before.
pub open spec fn held_after(start: Set<Seq<u8>>, ops: Seq<Change>) -> Set<Seq<u8>>
    decreases ops.len(),
{
    if ops.len() == 0 {
        start
    } else {
        let before = held_after(start, ops.drop_last());
        match ops.last().action {
            Action::Publish => before.insert(ops.last().path@),
            Action::Unpublish => before.remove(ops.last().path@),
        }
    }
}

/// Whatever the changes that one writer makes, the paths that resolve to it
/// afterwards are those that it held, joined with what it published and
/// less what it unpublished, in the order of the changes; and every other
/// endpoint holds what it held.
pub proof fn lemma_single_writer(dir: Map<Seq<u8>, Seq<Endpoint>>, ops: Seq<Change>, e: Endpoint)
    requires
        dir_wf(dir),
        changes_acceptable(ops),
        forall|i: int| 0 <= i < ops.len() ==> (#[trigger] ops[i]).endpoint == e,
    ensures
        dir_wf(dir_change(dir, ops)),
        owned(dir_change(dir, ops), e) == held_after(owned(dir, e), ops),
        forall|x: Endpoint| x != e ==> #[trigger] owned(dir_change(dir, ops), x) == owned(dir, x),
    decreases ops.len(),
{
    if ops.len() > 0 {
        let init = ops.drop_last();
        let c = ops.last();
        assert(c == ops[ops.len() - 1]);
        assert forall|i: int| 0 <= i < init.len() implies (#[trigger] init[i]).endpoint == e by {
            assert(init[i] == ops[i]);
        }
        assert(changes_acceptable(init)) by {
            assert forall|i: int|
                0 <= i < init.len() && (#[trigger] init[i]).action
                    == Action::Publish implies is_absolute(init[i].path@) by {
                assert(init[i] == ops[i]);
            }
        }
        lemma_single_writer(dir, init, e);
        let mid = dir_change(dir, init);
        let p = c.path@;
        match c.action {
            Action::Publish => {
                lemma_publish_is_with(mid, p, e);
                lemma_with_wf(mid, e, set![p]);
                lemma_owned_with(mid, e, set![p], e);
                assert(owned(mid, e).union(set![p]) =~= owned(mid, e).insert(p));
                assert forall|x: Endpoint| x != e implies #[trigger] owned(
                    dir_change(dir, ops),
                    x,
                ) == owned(dir, x) by {
                    lemma_owned_with(mid, e, set![p], x);
                    assert(owned(mid, x) == owned(dir, x));
                }
            },
            Action::Unpublish => {
                lemma_unpublish_is_without(mid, p, e);
                lemma_without_wf(mid, set![(p, e)]);
                lemma_owned_without(mid, set![(p, e)], e);
                assert(owned(dir_change(dir, ops), e) =~= owned(mid, e).remove(p));
                assert forall|x: Endpoint| x != e implies #[trigger] owned(
                    dir_change(dir, ops),
                    x,
                ) == owned(dir, x) by {
                    lemma_owned_without(mid, set![(p, e)], x);
                    assert(owned(mid, x) == owned(dir, x));
                    assert(owned(dir_change(dir, ops), x) =~= owned(mid, x));
                }
            },
        }
    }
}

/// A path resolves to an endpoint that was published at it, as long as no
/// later change unpublishes that endpoint at that path.
pub proof fn lemma_published_resolves(dir: Map<Seq<u8>, Seq<Endpoint>>, ops: Seq<Change>, i: int)
    requires
        0 <= i < ops.len(),
        ops[i].action == Action::Publish,
        forall|j: int|
            i < j < ops.len() ==> !((#[trigger] ops[j]).action == Action::Unpublish && ops[j].path@
                == ops[i].path@ && ops[j].endpoint == ops[i].endpoint),
    ensures
        endpoints_at(dir_change(dir, ops), ops[i].path@).contains(ops[i].endpoint),
    decreases ops.len(),
{
    let p = ops[i].path@;
    let e = ops[i].endpoint;
    let init = ops.drop_last();
    let mid = dir_change(dir, init);
    let c = ops.last();
    if i == ops.len() - 1 {
        if !endpoints_at(mid, p).contains(e) {
            let pushed = endpoints_at(mid, p).push(e);
            assert(pushed[pushed.len() - 1] == e);
        }
    } else {
        assert(init[i] == ops[i]);
        assert forall|j: int| i < j < init.len() implies !((#[trigger] init[j]).action
            == Action::Unpublish && init[j].path@ == init[i].path@ && init[j].endpoint
            == init[i].endpoint) by {
            assert(init[j] == ops[j]);
        }
        lemma_published_resolves(dir, init, i);
        let eps = endpoints_at(mid, p);
        let k = choose|k: int| 0 <= k < eps.len() && eps[k] == e;
        assert(c == ops[ops.len() - 1]);
        match c.action {
            Action::Publish => {
                if c.path@ == p && !eps.contains(c.endpoint) {
                    assert(eps.push(c.endpoint)[k] == e);
                }
            },
            Action::Unpublish => {
                if c.path@ == p && eps.contains(c.endpoint) && eps.len() != 1 {
                    let m = eps.index_of(c.endpoint);
                    let rest = eps.remove(m);
                    if k < m {
                        assert(rest[k] == e);
                    } else {
                        assert(rest[k - 1] == e);
                    }
                }
            },
        }
    }
}

} // verus!
