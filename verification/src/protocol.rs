//! The messages that clients and the resolver exchange.
//!
//! Each message type has a view made of sequences, over which the contracts
//! of the server and of the client speak.

use vstd::prelude::*;
use crate::endpoint::Endpoint;
use crate::path::Path;
use crate::pathset::{clone_paths, path_views};

verus! {

/// The shortest time to live, in seconds, that a writer may ask for.
pub const MIN_TTL: u64 = 1;

/// The longest time to live, in seconds, that a writer may ask for.
pub const MAX_TTL: u64 = 3600;

/// The first message of a client: what it intends to do on the connection.
#[derive(Clone, Copy, Debug, PartialEq, Eq, Structural)]
pub enum ClientHello {
    /// The client will only resolve and list.
    ReadOnly,
    /// The client publishes for the listener at `write_addr`, and promises
    /// to be heard from at least every `ttl` seconds.
    ReadWrite { ttl: u64, write_addr: Endpoint },
}

/// The server's answer to a hello. `ttl_expired` tells a writer that the
/// server holds no record of it, so that what it had published is gone.
#[derive(Clone, Copy, Debug, PartialEq, Eq, Structural)]
pub struct ServerHello {
    pub ttl_expired: bool,
}

/// A request of a client.
#[derive(Debug, PartialEq, Eq)]
pub enum ToResolver {
    /// Look up each path; the answer holds one list of endpoints per path.
    Resolve(Vec<Path>),
    /// List the paths strictly below a prefix.
    List(Path),
    /// Advertise the paths for the writer's endpoint.
    Publish(Vec<Path>),
    /// Withdraw the paths for the writer's endpoint.
    Unpublish(Vec<Path>),
    /// Withdraw everything the writer has advertised.
    Clear,
}

/// An answer of the server.
#[derive(Debug, PartialEq, Eq)]
pub enum FromResolver {
    Resolved(Vec<Vec<Endpoint>>),
    List(Vec<Path>),
    Published,
    Unpublished,
    Error(String),
}

/// The view of a request.
pub enum Request {
    Resolve(Seq<Seq<u8>>),
    List(Seq<u8>),
    Publish(Seq<Seq<u8>>),
    Unpublish(Seq<Seq<u8>>),
    Clear,
}

/// The view of an answer.
pub enum Response {
    Resolved(Seq<Seq<Endpoint>>),
    List(Seq<Seq<u8>>),
    Published,
    Unpublished,
    Error(Seq<char>),
}

/// The endpoints of each list of `lists`, in the same order.
pub open spec fn endpoint_views(lists: Seq<Vec<Endpoint>>) -> Seq<Seq<Endpoint>> {
    lists.map_values(|l: Vec<Endpoint>| l@)
}

impl View for ToResolver {
    type V = Request;

    open spec fn view(&self) -> Request {
        match self {
            ToResolver::Resolve(ps) => Request::Resolve(path_views(ps@)),
            ToResolver::List(p) => Request::List(p@),
            ToResolver::Publish(ps) => Request::Publish(path_views(ps@)),
            ToResolver::Unpublish(ps) => Request::Unpublish(path_views(ps@)),
            ToResolver::Clear => Request::Clear,
        }
    }
}

impl View for FromResolver {
    type V = Response;

    open spec fn view(&self) -> Response {
        match self {
            FromResolver::Resolved(ls) => Response::Resolved(endpoint_views(ls@)),
            FromResolver::List(ps) => Response::List(path_views(ps@)),
            FromResolver::Published => Response::Published,
            FromResolver::Unpublished => Response::Unpublished,
            FromResolver::Error(s) => Response::Error(s@),
        }
    }
}

impl Request {
    /// Whether the request changes the directory.
    pub open spec fn needs_write(self) -> bool {
        self is Publish || self is Unpublish || self is Clear
    }
}

/// Whether one of the requests changes the directory.
pub open spec fn any_needs_write(batch: Seq<ToResolver>) -> bool {
    exists|i: int| 0 <= i < batch.len() && (#[trigger] batch[i])@.needs_write()
}

/// A copy of each endpoint list of `lists`.
pub fn clone_endpoint_lists(lists: &Vec<Vec<Endpoint>>) -> (r: Vec<Vec<Endpoint>>)
    ensures
        endpoint_views(r@) == endpoint_views(lists@),
{
    let mut r: Vec<Vec<Endpoint>> = Vec::new();
    let mut i: usize = 0;
    while i < lists.len()
        invariant
            i <= lists.len(),
            r@.len() == i,
            forall|j: int| 0 <= j < i ==> (#[trigger] r@[j])@ == lists@[j]@,
        decreases lists.len() - i,
    {
        let mut l: Vec<Endpoint> = Vec::new();
        let mut k: usize = 0;
        while k < lists[i].len()
            invariant
                i < lists.len(),
                k <= lists@[i as int]@.len(),
                l@ == lists@[i as int]@.subrange(0, k as int),
            decreases lists@[i as int]@.len() - k,
        {
            l.push(lists[i][k]);
            proof {
                assert(l@ =~= lists@[i as int]@.subrange(0, k + 1));
            }
            k += 1;
        }
        proof {
            assert(l@ =~= lists@[i as int]@);
        }
        r.push(l);
        i += 1;
    }
    proof {
        assert(endpoint_views(r@) =~= endpoint_views(lists@));
    }
    r
}

impl ToResolver {
    /// Whether the request changes the directory, so that the batch it
    /// stands in must be served under the exclusive lock.
    pub fn needs_write(&self) -> (b: bool)
        ensures
            b == self@.needs_write(),
    {
        match self {
            ToResolver::Resolve(_) => false,
            ToResolver::List(_) => false,
            ToResolver::Publish(_) => true,
            ToResolver::Unpublish(_) => true,
            ToResolver::Clear => true,
        }
    }
}

impl Clone for ToResolver {
    fn clone(&self) -> (r: ToResolver)
        ensures
            r@ == self@,
    {
        match self {
            ToResolver::Resolve(ps) => ToResolver::Resolve(clone_paths(ps)),
            ToResolver::List(p) => ToResolver::List(p.clone()),
            ToResolver::Publish(ps) => ToResolver::Publish(clone_paths(ps)),
            ToResolver::Unpublish(ps) => ToResolver::Unpublish(clone_paths(ps)),
            ToResolver::Clear => ToResolver::Clear,
        }
    }
}

impl Clone for FromResolver {
    fn clone(&self) -> (r: FromResolver)
        ensures
            r@ == self@,
    {
        match self {
            FromResolver::Resolved(ls) => FromResolver::Resolved(clone_endpoint_lists(ls)),
            FromResolver::List(ps) => FromResolver::List(clone_paths(ps)),
            FromResolver::Published => FromResolver::Published,
            FromResolver::Unpublished => FromResolver::Unpublished,
            FromResolver::Error(s) => FromResolver::Error(s.clone()),
        }
    }
}

/// Whether one of the requests of `batch` changes the directory.
pub fn batch_needs_write(batch: &Vec<ToResolver>) -> (b: bool)
    ensures
        b == any_needs_write(batch@),
{
    let mut i: usize = 0;
    while i < batch.len()
        invariant
            i <= batch.len(),
            forall|j: int| 0 <= j < i ==> !(#[trigger] batch@[j])@.needs_write(),
        decreases batch.len() - i,
    {
        if batch[i].needs_write() {
            return true;
        }
        i += 1;
    }
    false
}

} // verus!
