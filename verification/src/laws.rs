//! What holds of a client and a server together.

use vstd::prelude::*;
use crate::client::{
    carries_out, client_decision, client_next, ActionView, ClientView, EventView, Role, TTL,
};
use crate::directory::all_absolute;
use crate::endpoint::Endpoint;
use crate::model::{answers, consistent, lemma_republish_restores, state_upsert, step, ServerState};
use crate::protocol::{Request, Response, ServerHello};
use crate::store::owned;

verus! {

/// A writer whose record the server has lost gets back exactly what it had
/// published. When the server answers the hello of such a writer with
/// `ttl_expired`, the next thing the client sends is a request that the
/// server answers with `Published`, and after it the paths that resolve to
/// the writer are the paths that the client holds as published, no more and
/// no less.
pub proof fn lemma_reconnect_restores(
    s: ServerState,
    c: ClientView,
    w: Endpoint,
    cancel: u64,
    now: u64,
    a: ActionView,
)
    requires
        consistent(s),
        !s.clients.contains_key(w),
        c.role == Role::ReadWrite(w),
        c.phase is Greeting,
        all_absolute(c.published),
        carries_out(
            a,
            client_decision(c, EventView::Hello(ServerHello { ttl_expired: true })),
            c.published,
        ),
    ensures
        client_next(c, EventView::Hello(ServerHello { ttl_expired: true })).phase is Republishing,
        a matches ActionView::Send(req) && ({
            let greeted = state_upsert(s, w, TTL, cancel, now);
            let t = step(greeted, w, req);
            &&& answers(greeted, req, Response::Published)
            &&& owned(t.dir, w) == c.published
            &&& t.clients[w].published == c.published
            &&& consistent(t)
        }),
{
    let ps = a->Send_0->Publish_0;
    lemma_republish_restores(s, w, TTL, cancel, now, ps);
}

/// The delay before an attempt to connect is the number of attempts that
/// have failed in a row since the client set out to connect.
pub proof fn lemma_backoff(c: ClientView)
    requires
        c.phase is Connecting,
        c.backoff < u64::MAX,
    ensures
        client_decision(c, EventView::Failed) == crate::client::Decision::Act(
            ActionView::Connect { delay: (c.backoff + 1) as u64 },
        ),
        client_next(c, EventView::Failed).backoff == c.backoff + 1,
        client_next(c, EventView::Failed).phase is Connecting,
{
}

/// A request whose connection fails is not lost: the client sets out to
/// connect again at once, and sends the same request as soon as the new
/// connection is usable.
pub proof fn lemma_request_survives(c: ClientView, m: Request)
    requires
        c.phase is Sending,
        c.pending == Some(m),
    ensures
        ({
            let c1 = client_next(c, EventView::Failed);
            let c2 = client_next(c1, EventView::Connected);
            let c3 = client_next(c2, EventView::Hello(ServerHello { ttl_expired: false }));
            &&& client_decision(c, EventView::Failed) == crate::client::Decision::Act(
                ActionView::Connect { delay: 0 },
            )
            &&& c1.pending == Some(m)
            &&& client_decision(c2, EventView::Hello(ServerHello { ttl_expired: false }))
                == crate::client::Decision::Act(ActionView::Send(m))
            &&& c3.phase is Sending
            &&& c3.pending == Some(m)
            &&& c3.published == c.published
        }),
{
}

} // verus!
