//! The client core: one connection to the resolver, kept up across
//! failures.
//!
//! The client is a state machine. Whoever runs it performs the action that a
//! step asks for (connect, send, wait for a timer or a request) and hands
//! back what came of it as the next event. The machine remembers what the
//! writer has published, so that it can publish it anew when the server has
//! forgotten the writer.

use vstd::prelude::*;
use crate::endpoint::Endpoint;
use crate::path::{strictly_sorted, Path};
use crate::pathset::{lemma_path_views, path_views, PathSet};
use crate::protocol::{ClientHello, FromResolver, Request, Response, ServerHello, ToResolver};

verus! {

/// The time to live, in seconds, that a writer asks for.
pub const TTL: u64 = 600;

/// The number of seconds after which an idle connection is dropped.
pub const LINGER: u64 = 10;

/// The number of seconds between two heartbeats: half the time to live.
pub fn heartbeat_period() -> (p: u64)
    ensures
        p == TTL / 2,
        p == 300,
{
    TTL / 2
}

/// What the client does on its connection.
#[derive(Clone, Copy, Debug, PartialEq, Eq, Structural)]
pub enum Role {
    /// It resolves and lists.
    ReadOnly,
    /// It also publishes, for the listener at the given endpoint.
    ReadWrite(Endpoint),
}

/// Where the client stands.
#[derive(Clone, Copy, Debug, PartialEq, Eq, Structural)]
pub enum Phase {
    /// Waiting for a timer or a request.
    Idle,
    /// Waiting for the connection to be made.
    Connecting,
    /// The hello was sent; waiting for the server's.
    Greeting,
    /// The server had forgotten the writer: what it had published was
    /// sent anew; waiting for the answer.
    Republishing,
    /// A request was sent; waiting for its answer.
    Sending,
    /// The client was shut down.
    Stopped,
}

/// What happened.
#[derive(Debug)]
pub enum Event {
    /// The heartbeat timer fired.
    Heartbeat,
    /// The idle timer fired.
    Linger,
    /// A caller has made a request.
    Request(ToResolver),
    /// The client is to stop.
    Shutdown,
    /// The connection was made.
    Connected,
    /// The server's hello has arrived.
    Hello(ServerHello),
    /// The answer to what was sent has arrived.
    Reply(FromResolver),
    /// Connecting, sending or receiving has failed.
    Failed,
}

/// The view of an event.
pub enum EventView {
    Heartbeat,
    Linger,
    Request(Request),
    Shutdown,
    Connected,
    Hello(ServerHello),
    Reply(Response),
    Failed,
}

impl View for Event {
    type V = EventView;

    open spec fn view(&self) -> EventView {
        match self {
            Event::Heartbeat => EventView::Heartbeat,
            Event::Linger => EventView::Linger,
            Event::Request(m) => EventView::Request(m@),
            Event::Shutdown => EventView::Shutdown,
            Event::Connected => EventView::Connected,
            Event::Hello(h) => EventView::Hello(*h),
            Event::Reply(r) => EventView::Reply(r@),
            Event::Failed => EventView::Failed,
        }
    }
}

/// What is to be done next.
#[derive(Debug)]
pub enum Action {
    /// Wait for a timer, a request or the shutdown.
    Wait,
    /// Drop the connection, then wait.
    Disconnect,
    /// Drop the connection if there is one, sleep for `delay` seconds, then
    /// connect.
    Connect { delay: u64 },
    /// Send the hello, then read the server's.
    Hello(ClientHello),
    /// Send the request, then read its answer.
    Send(ToResolver),
    /// Hand the answer to the caller whose request it answers, then wait.
    Deliver(FromResolver),
    /// Fail the requests that wait, and stop.
    Exit,
}

/// The view of an action.
pub enum ActionView {
    Wait,
    Disconnect,
    Connect { delay: u64 },
    Hello(ClientHello),
    Send(Request),
    Deliver(Response),
    Exit,
}

impl View for Action {
    type V = ActionView;

    open spec fn view(&self) -> ActionView {
        match self {
            Action::Wait => ActionView::Wait,
            Action::Disconnect => ActionView::Disconnect,
            Action::Connect { delay } => ActionView::Connect { delay: *delay },
            Action::Hello(h) => ActionView::Hello(*h),
            Action::Send(m) => ActionView::Send(m@),
            Action::Deliver(r) => ActionView::Deliver(r@),
            Action::Exit => ActionView::Exit,
        }
    }
}

/// The client as a mathematical value.
pub struct ClientView {
    pub role: Role,
    /// The paths that the server has acknowledged as published.
    pub published: Set<Seq<u8>>,
    /// Whether there is a connection that has got through the hello.
    pub connected: bool,
    pub phase: Phase,
    /// The number of attempts to connect that have failed in a row.
    pub backoff: u64,
    /// The request that waits for its answer.
    pub pending: Option<Request>,
}

/// What a step decides: an action, or to publish anew what was published.
pub enum Decision {
    Act(ActionView),
    Republish,
}

/// The hello that goes with a role.
pub open spec fn hello_for(role: Role) -> ClientHello {
    match role {
        Role::ReadOnly => ClientHello::ReadOnly,
        Role::ReadWrite(write_addr) => ClientHello::ReadWrite { ttl: TTL, write_addr },
    }
}

/// The client as it sets out to connect: no attempt has failed yet.
pub open spec fn connecting(s: ClientView) -> ClientView {
    ClientView { connected: false, phase: Phase::Connecting, backoff: 0, ..s }
}

/// The client after an attempt to connect has failed: one more failure in
/// a row.
pub open spec fn retrying(s: ClientView) -> ClientView {
    ClientView {
        connected: false,
        phase: Phase::Connecting,
        backoff: if s.backoff < u64::MAX {
            (s.backoff + 1) as u64
        } else {
            s.backoff
        },
        ..s
    }
}

/// The client once its connection is usable: it sends the request that
/// waits, if one does.
pub open spec fn ready(s: ClientView) -> ClientView {
    ClientView {
        connected: true,
        phase: if s.pending is Some {
            Phase::Sending
        } else {
            Phase::Idle
        },
        ..s
    }
}

/// What the client holds as published once `reply` has answered the request
/// `pending`: an acknowledged publication adds its paths, an acknowledged
/// withdrawal takes its paths out, and any other answer changes nothing.
pub open spec fn published_after(
    published: Set<Seq<u8>>,
    pending: Option<Request>,
    reply: Response,
) -> Set<Seq<u8>> {
    match (pending, reply) {
        (Some(Request::Publish(ps)), Response::Published) => published.union(ps.to_set()),
        (Some(Request::Unpublish(ps)), Response::Unpublished) => published.difference(ps.to_set()),
        (Some(Request::Clear), Response::Unpublished) => Set::empty(),
        _ => published,
    }
}

/// The client after the event `ev`.
pub open spec fn client_next(s: ClientView, ev: EventView) -> ClientView {
    if s.phase is Stopped {
        s
    } else if ev is Shutdown {
        ClientView { phase: Phase::Stopped, connected: false, ..s }
    } else {
        match (s.phase, ev) {
            (Phase::Idle, EventView::Heartbeat) => if s.connected {
                s
            } else {
                connecting(s)
            },
            (Phase::Idle, EventView::Linger) => ClientView { connected: false, ..s },
            (Phase::Idle, EventView::Request(m)) => if s.connected {
                ClientView { phase: Phase::Sending, pending: Some(m), ..s }
            } else {
                connecting(ClientView { pending: Some(m), ..s })
            },
            (Phase::Connecting, EventView::Connected) => ClientView { phase: Phase::Greeting, ..s },
            (Phase::Connecting, EventView::Failed) => retrying(s),
            (Phase::Greeting, EventView::Hello(h)) => if h.ttl_expired {
                ClientView { phase: Phase::Republishing, ..s }
            } else {
                ready(s)
            },
            (Phase::Greeting, EventView::Failed) => retrying(s),
            (Phase::Republishing, EventView::Reply(r)) => if r is Published {
                ready(s)
            } else {
                retrying(s)
            },
            (Phase::Republishing, EventView::Failed) => retrying(s),
            (Phase::Sending, EventView::Reply(r)) => ClientView {
                phase: Phase::Idle,
                pending: None,
                published: published_after(s.published, s.pending, r),
                ..s
            },
            (Phase::Sending, EventView::Failed) => connecting(s),
            _ => s,
        }
    }
}

/// What is done once the connection is usable: the request that waits is
/// sent, if one does.
pub open spec fn ready_action(s: ClientView) -> ActionView {
    match s.pending {
        Some(m) => ActionView::Send(m),
        None => ActionView::Wait,
    }
}

/// What the client is busy with: the action whose outcome it waits for.
pub open spec fn awaited(s: ClientView) -> Decision {
    match s.phase {
        Phase::Idle => Decision::Act(ActionView::Wait),
        Phase::Connecting => Decision::Act(ActionView::Connect { delay: s.backoff }),
        Phase::Greeting => Decision::Act(ActionView::Hello(hello_for(s.role))),
        Phase::Republishing => Decision::Republish,
        Phase::Sending => Decision::Act(ready_action(s)),
        Phase::Stopped => Decision::Act(ActionView::Exit),
    }
}

/// What the client decides on the event `ev`. An event that is not what the
/// client waits for decides nothing new: the answer is what the client is
/// busy with.
pub open spec fn client_decision(s: ClientView, ev: EventView) -> Decision {
    if s.phase is Stopped || ev is Shutdown {
        Decision::Act(ActionView::Exit)
    } else {
        match (s.phase, ev) {
            (Phase::Idle, EventView::Heartbeat) => if s.connected {
                Decision::Act(ActionView::Wait)
            } else {
                Decision::Act(ActionView::Connect { delay: 0 })
            },
            (Phase::Idle, EventView::Linger) => Decision::Act(ActionView::Disconnect),
            (Phase::Idle, EventView::Request(m)) => if s.connected {
                Decision::Act(ActionView::Send(m))
            } else {
                Decision::Act(ActionView::Connect { delay: 0 })
            },
            (Phase::Connecting, EventView::Connected) => Decision::Act(
                ActionView::Hello(hello_for(s.role)),
            ),
            (Phase::Connecting, EventView::Failed) => Decision::Act(
                ActionView::Connect { delay: retrying(s).backoff },
            ),
            (Phase::Greeting, EventView::Hello(h)) => if h.ttl_expired {
                Decision::Republish
            } else {
                Decision::Act(ready_action(s))
            },
            (Phase::Greeting, EventView::Failed) => Decision::Act(
                ActionView::Connect { delay: retrying(s).backoff },
            ),
            (Phase::Republishing, EventView::Reply(r)) => if r is Published {
                Decision::Act(ready_action(s))
            } else {
                Decision::Act(ActionView::Connect { delay: retrying(s).backoff })
            },
            (Phase::Republishing, EventView::Failed) => Decision::Act(
                ActionView::Connect { delay: retrying(s).backoff },
            ),
            (Phase::Sending, EventView::Reply(r)) => Decision::Act(ActionView::Deliver(r)),
            (Phase::Sending, EventView::Failed) => Decision::Act(ActionView::Connect { delay: 0 }),
            _ => awaited(s),
        }
    }
}

/// The action `a` carries out the decision `d` of a client that holds
/// `published`: to publish anew is to send a request to publish exactly
/// those paths, in ascending order.
pub open spec fn carries_out(a: ActionView, d: Decision, published: Set<Seq<u8>>) -> bool {
    match d {
        Decision::Act(x) => a == x,
        Decision::Republish => a matches ActionView::Send(Request::Publish(ps)) && strictly_sorted(
            ps,
        ) && ps.to_set() == published,
    }
}

/// The client core.
#[derive(Debug)]
pub struct Client {
    role: Role,
    published: PathSet,
    connected: bool,
    phase: Phase,
    backoff: u64,
    pending: Option<ToResolver>,
}

impl View for Client {
    type V = ClientView;

    closed spec fn view(&self) -> ClientView {
        ClientView {
            role: self.role,
            published: self.published@,
            connected: self.connected,
            phase: self.phase,
            backoff: self.backoff,
            pending: match self.pending {
                Some(m) => Some(m@),
                None => None,
            },
        }
    }
}

impl Client {
    /// The representation invariant.
    pub closed spec fn wf(&self) -> bool {
        self.published.wf()
    }

    /// A client that has not connected yet and has published nothing.
    pub fn new(role: Role) -> (c: Client)
        ensures
            c.wf(),
            c@ == (ClientView {
                role,
                published: Set::empty(),
                connected: false,
                phase: Phase::Idle,
                backoff: 0,
                pending: None,
            }),
    {
        Client {
            role,
            published: PathSet::new(),
            connected: false,
            phase: Phase::Idle,
            backoff: 0,
            pending: None,
        }
    }

    /// Where the client stands.
    pub fn phase(&self) -> (p: Phase)
        ensures
            p == self@.phase,
    {
        self.phase
    }

    /// Whether there is a connection that has got through the hello.
    pub fn is_connected(&self) -> (b: bool)
        ensures
            b == self@.connected,
    {
        self.connected
    }

    /// The paths that the server has acknowledged as published, in
    /// ascending order.
    pub fn published(&self) -> (ps: Vec<Path>)
        requires
            self.wf(),
        ensures
            strictly_sorted(path_views(ps@)),
            path_views(ps@).to_set() == self@.published,
    {
        let ps = self.published.to_vec();
        proof {
            self.published.lemma_seq();
            lemma_path_views(self.published.seq());
            lemma_path_views(ps@);
        }
        ps
    }

    /// The hello that the client sends.
    pub fn hello(&self) -> (h: ClientHello)
        ensures
            h == hello_for(self@.role),
    {
        match self.role {
            Role::ReadOnly => ClientHello::ReadOnly,
            Role::ReadWrite(write_addr) => ClientHello::ReadWrite { ttl: TTL, write_addr },
        }
    }

    fn retry(&mut self) -> (a: Action)
        requires
            old(self).wf(),
        ensures
            final(self).wf(),
            final(self)@ == retrying(old(self)@),
            a@ == (ActionView::Connect { delay: retrying(old(self)@).backoff }),
    {
        self.connected = false;
        self.phase = Phase::Connecting;
        if self.backoff < u64::MAX {
            self.backoff = self.backoff + 1;
        }
        Action::Connect { delay: self.backoff }
    }

    fn connect(&mut self) -> (a: Action)
        requires
            old(self).wf(),
        ensures
            final(self).wf(),
            final(self)@ == connecting(old(self)@),
            a@ == (ActionView::Connect { delay: 0 }),
    {
        self.connected = false;
        self.phase = Phase::Connecting;
        self.backoff = 0;
        Action::Connect { delay: 0 }
    }

    /// What the client is busy with: the action whose outcome it waits
    /// for. This is the answer to an event that is out of place.
    pub fn awaited(&self) -> (a: Action)
        requires
            self.wf(),
        ensures
            carries_out(a@, awaited(self@), self@.published),
    {
        match self.phase {
            Phase::Idle => Action::Wait,
            Phase::Connecting => Action::Connect { delay: self.backoff },
            Phase::Greeting => Action::Hello(self.hello()),
            Phase::Republishing => Action::Send(ToResolver::Publish(self.published())),
            Phase::Sending => match &self.pending {
                Some(m) => Action::Send(m.clone()),
                None => Action::Wait,
            },
            Phase::Stopped => Action::Exit,
        }
    }

    fn usable(&mut self) -> (a: Action)
        requires
            old(self).wf(),
        ensures
            final(self).wf(),
            final(self)@ == ready(old(self)@),
            a@ == ready_action(old(self)@),
    {
        self.connected = true;
        match &self.pending {
            Some(m) => {
                let a = Action::Send(m.clone());
                self.phase = Phase::Sending;
                a
            },
            None => {
                self.phase = Phase::Idle;
                Action::Wait
            },
        }
    }

    fn settle(&mut self, reply: FromResolver) -> (a: Action)
        requires
            old(self).wf(),
        ensures
            final(self).wf(),
            final(self)@ == (ClientView {
                phase: Phase::Idle,
                pending: None,
                published: published_after(old(self)@.published, old(self)@.pending, reply@),
                ..old(self)@
            }),
            a@ == ActionView::Deliver(reply@),
    {
        let pending = self.pending.take();
        self.phase = Phase::Idle;
        match (&pending, &reply) {
            (Some(ToResolver::Publish(ps)), FromResolver::Published) => {
                self.published.extend(ps);
            },
            (Some(ToResolver::Unpublish(ps)), FromResolver::Unpublished) => {
                self.published.subtract(ps);
            },
            (Some(ToResolver::Clear), FromResolver::Unpublished) => {
                self.published = PathSet::new();
            },
            _ => {},
        }
        Action::Deliver(reply)
    }

    /// Takes the event `ev` and says what is to be done next.
    ///
    /// A request is sent again on every new connection until its answer
    /// arrives. A connection is made anew without delay the first time, and
    /// after as many seconds as attempts have failed in a row from then on.
    /// When the server says that it had forgotten the writer, the paths
    /// that the writer has published are published again before anything
    /// else is sent.
    ///
    /// Timers and requests are for a client that was told to wait. An
    /// event that is not what the client waits for changes nothing, a
    /// request among them: it is dropped, and the answer is what the client
    /// is busy with.
    pub fn step(&mut self, ev: Event) -> (a: Action)
        requires
            old(self).wf(),
        ensures
            final(self).wf(),
            final(self)@ == client_next(old(self)@, ev@),
            carries_out(a@, client_decision(old(self)@, ev@), old(self)@.published),
    {
        match self.phase {
            Phase::Stopped => {
                return Action::Exit;
            },
            _ => {},
        }
        match ev {
            Event::Shutdown => {
                self.phase = Phase::Stopped;
                self.connected = false;
                return Action::Exit;
            },
            _ => {},
        }
        match self.phase {
            Phase::Idle => match ev {
                Event::Heartbeat => {
                    if self.connected {
                        Action::Wait
                    } else {
                        self.connect()
                    }
                },
                Event::Linger => {
                    self.connected = false;
                    Action::Disconnect
                },
                Event::Request(m) => {
                    if self.connected {
                        let a = Action::Send(m.clone());
                        self.pending = Some(m);
                        self.phase = Phase::Sending;
                        a
                    } else {
                        self.pending = Some(m);
                        self.connect()
                    }
                },
                _ => self.awaited(),
            },
            Phase::Connecting => match ev {
                Event::Connected => {
                    self.phase = Phase::Greeting;
                    Action::Hello(self.hello())
                },
                Event::Failed => self.retry(),
                _ => self.awaited(),
            },
            Phase::Greeting => match ev {
                Event::Hello(h) => {
                    if h.ttl_expired {
                        self.phase = Phase::Republishing;
                        Action::Send(ToResolver::Publish(self.published()))
                    } else {
                        self.usable()
                    }
                },
                Event::Failed => self.retry(),
                _ => self.awaited(),
            },
            Phase::Republishing => match ev {
                Event::Reply(r) => {
                    let acknowledged = match r {
                        FromResolver::Published => true,
                        _ => false,
                    };
                    if acknowledged {
                        self.usable()
                    } else {
                        self.retry()
                    }
                },
                Event::Failed => self.retry(),
                _ => self.awaited(),
            },
            Phase::Sending => match ev {
                Event::Reply(r) => self.settle(r),
                Event::Failed => self.connect(),
                _ => self.awaited(),
            },
            Phase::Stopped => Action::Exit,
        }
    }
}

/// Why a caller does not get what it asked for.
#[derive(Debug, PartialEq, Eq)]
pub enum ReplyError {
    /// The server has answered with an error, whose text this is.
    Server(String),
    /// The server has answered with something that does not answer the
    /// request.
    Unexpected,
}

/// The view of a `ReplyError`.
pub enum ReplyErrorView {
    Server(Seq<char>),
    Unexpected,
}

impl View for ReplyError {
    type V = ReplyErrorView;

    open spec fn view(&self) -> ReplyErrorView {
        match self {
            ReplyError::Server(s) => ReplyErrorView::Server(s@),
            ReplyError::Unexpected => ReplyErrorView::Unexpected,
        }
    }
}

impl ReplyError {
    /// The text that goes with the error.
    pub fn message(&self) -> (s: String)
        ensures
            s@ == match self@ {
                ReplyErrorView::Server(t) => t,
                ReplyErrorView::Unexpected => "unexpected response"@,
            },
    {
        match self {
            ReplyError::Server(t) => t.clone(),
            ReplyError::Unexpected => "unexpected response".to_owned(),
        }
    }
}

/// What a caller that asked to resolve paths gets from the answer: the
/// lists of endpoints, the server's error, or the word that the answer is
/// none to its request.
pub fn expect_resolved(reply: FromResolver) -> (r: Result<Vec<Vec<Endpoint>>, ReplyError>)
    ensures
        match reply@ {
            Response::Resolved(ls) => r matches Ok(v) && crate::protocol::endpoint_views(v@) == ls,
            Response::Error(s) => r matches Err(e) && e@ == ReplyErrorView::Server(s),
            _ => r matches Err(e) && e@ == ReplyErrorView::Unexpected,
        },
{
    match reply {
        FromResolver::Resolved(ls) => Ok(ls),
        FromResolver::Error(s) => Err(ReplyError::Server(s)),
        _ => Err(ReplyError::Unexpected),
    }
}

/// What a caller that asked for a listing gets from the answer.
pub fn expect_list(reply: FromResolver) -> (r: Result<Vec<Path>, ReplyError>)
    ensures
        match reply@ {
            Response::List(ps) => r matches Ok(v) && path_views(v@) == ps,
            Response::Error(s) => r matches Err(e) && e@ == ReplyErrorView::Server(s),
            _ => r matches Err(e) && e@ == ReplyErrorView::Unexpected,
        },
{
    match reply {
        FromResolver::List(ps) => Ok(ps),
        FromResolver::Error(s) => Err(ReplyError::Server(s)),
        _ => Err(ReplyError::Unexpected),
    }
}

/// What a caller that asked to publish gets from the answer.
pub fn expect_published(reply: FromResolver) -> (r: Result<(), ReplyError>)
    ensures
        match reply@ {
            Response::Published => r is Ok,
            Response::Error(s) => r matches Err(e) && e@ == ReplyErrorView::Server(s),
            _ => r matches Err(e) && e@ == ReplyErrorView::Unexpected,
        },
{
    match reply {
        FromResolver::Published => Ok(()),
        FromResolver::Error(s) => Err(ReplyError::Server(s)),
        _ => Err(ReplyError::Unexpected),
    }
}

/// What a caller that asked to unpublish gets from the answer.
pub fn expect_unpublished(reply: FromResolver) -> (r: Result<(), ReplyError>)
    ensures
        match reply@ {
            Response::Unpublished => r is Ok,
            Response::Error(s) => r matches Err(e) && e@ == ReplyErrorView::Server(s),
            _ => r matches Err(e) && e@ == ReplyErrorView::Unexpected,
        },
{
    match reply {
        FromResolver::Unpublished => Ok(()),
        FromResolver::Error(s) => Err(ReplyError::Server(s)),
        _ => Err(ReplyError::Unexpected),
    }
}

} // verus!
