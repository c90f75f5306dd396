use resolver::client::{
    expect_list, expect_published, expect_resolved, expect_unpublished, heartbeat_period, Action,
    Client, Event, Phase, ReplyError, Role, LINGER, TTL,
};
use resolver::endpoint::Endpoint;
use resolver::path::Path;
use resolver::protocol::{ClientHello, FromResolver, ServerHello, ToResolver};

fn me() -> Endpoint {
    Endpoint::v4(10, 1, 2, 3, 4000)
}

fn client_names(list: &[&str]) -> Vec<Path> {
    list.iter().map(|n| Path::new(n)).collect()
}

fn connected_writer() -> Client {
    let mut c = Client::new(Role::ReadWrite(me()));
    assert!(matches!(c.step(Event::Heartbeat), Action::Connect { delay: 0 }));
    assert!(matches!(c.step(Event::Connected), Action::Hello(_)));
    assert!(matches!(c.step(Event::Hello(ServerHello { ttl_expired: false })), Action::Wait));
    assert!(c.is_connected());
    assert_eq!(c.phase(), Phase::Idle);
    c
}

#[test]
fn timers() {
    assert_eq!(TTL, 600);
    assert_eq!(heartbeat_period(), 300);
    assert_eq!(LINGER, 10);
}

#[test]
fn hello_goes_with_the_role() {
    assert_eq!(Client::new(Role::ReadOnly).hello(), ClientHello::ReadOnly);
    assert_eq!(
        Client::new(Role::ReadWrite(me())).hello(),
        ClientHello::ReadWrite { ttl: 600, write_addr: me() }
    );
}

#[test]
fn backoff_grows_by_one_second_per_failure() {
    let mut c = Client::new(Role::ReadOnly);
    assert!(matches!(c.step(Event::Heartbeat), Action::Connect { delay: 0 }));
    assert!(matches!(c.step(Event::Failed), Action::Connect { delay: 1 }));
    assert!(matches!(c.step(Event::Failed), Action::Connect { delay: 2 }));
    // A failure at any stage of connecting counts.
    assert!(matches!(c.step(Event::Connected), Action::Hello(ClientHello::ReadOnly)));
    assert!(matches!(c.step(Event::Failed), Action::Connect { delay: 3 }));
    assert!(matches!(c.step(Event::Connected), Action::Hello(ClientHello::ReadOnly)));
    assert!(matches!(
        c.step(Event::Hello(ServerHello { ttl_expired: true })),
        Action::Send(ToResolver::Publish(_))
    ));
    assert!(matches!(
        c.step(Event::Reply(FromResolver::Error(String::from("no")))),
        Action::Connect { delay: 4 }
    ));
    assert_eq!(c.phase(), Phase::Connecting);
    assert!(!c.is_connected());
    // The next time the client sets out to connect it starts afresh.
    assert!(matches!(c.step(Event::Connected), Action::Hello(_)));
    assert!(matches!(c.step(Event::Hello(ServerHello { ttl_expired: false })), Action::Wait));
    assert!(matches!(c.step(Event::Linger), Action::Disconnect));
    assert!(matches!(c.step(Event::Heartbeat), Action::Connect { delay: 0 }));
}

#[test]
fn heartbeat_keeps_a_connection_that_is_there() {
    let mut c = connected_writer();
    assert!(matches!(c.step(Event::Heartbeat), Action::Wait));
    assert!(c.is_connected());
    assert!(matches!(c.step(Event::Linger), Action::Disconnect));
    assert!(!c.is_connected());
    assert!(matches!(c.step(Event::Linger), Action::Disconnect));
}

#[test]
fn request_is_sent_again_until_it_is_answered() {
    let mut c = connected_writer();
    let req = ToResolver::Resolve(client_names(&["/a"]));
    assert!(matches!(c.step(Event::Request(req.clone())), Action::Send(m) if m == req));
    assert_eq!(c.phase(), Phase::Sending);
    for _ in 0..3 {
        assert!(matches!(c.step(Event::Failed), Action::Connect { delay: 0 }));
        assert!(matches!(c.step(Event::Failed), Action::Connect { delay: 1 }));
        assert!(matches!(c.step(Event::Connected), Action::Hello(_)));
        let a = c.step(Event::Hello(ServerHello { ttl_expired: false }));
        assert!(matches!(a, Action::Send(m) if m == req));
    }
    let reply = FromResolver::Resolved(vec![vec![me()]]);
    assert!(matches!(c.step(Event::Reply(reply.clone())), Action::Deliver(r) if r == reply));
    assert_eq!(c.phase(), Phase::Idle);
    assert!(c.is_connected());
}

#[test]
fn request_without_connection_connects_first() {
    let mut c = Client::new(Role::ReadOnly);
    let req = ToResolver::List(Path::new("/"));
    assert!(matches!(c.step(Event::Request(req.clone())), Action::Connect { delay: 0 }));
    assert!(matches!(c.step(Event::Connected), Action::Hello(ClientHello::ReadOnly)));
    let a = c.step(Event::Hello(ServerHello { ttl_expired: false }));
    assert!(matches!(a, Action::Send(m) if m == req));
}

#[test]
fn published_follows_what_the_server_acknowledges() {
    let mut c = connected_writer();
    let publish = |c: &mut Client, ps: &[&str], reply: FromResolver| {
        c.step(Event::Request(ToResolver::Publish(client_names(ps))));
        c.step(Event::Reply(reply));
    };
    publish(&mut c, &["/b", "/a"], FromResolver::Published);
    assert_eq!(c.published(), client_names(&["/a", "/b"]));
    // An error is no acknowledgement.
    publish(&mut c, &["/c"], FromResolver::Error(String::from("relative path")));
    assert_eq!(c.published(), client_names(&["/a", "/b"]));
    // Neither is an answer of another kind.
    publish(&mut c, &["/c"], FromResolver::Unpublished);
    assert_eq!(c.published(), client_names(&["/a", "/b"]));
    publish(&mut c, &["/c", "/a"], FromResolver::Published);
    assert_eq!(c.published(), client_names(&["/a", "/b", "/c"]));

    c.step(Event::Request(ToResolver::Unpublish(client_names(&["/b", "/zz"]))));
    c.step(Event::Reply(FromResolver::Published));
    assert_eq!(c.published(), client_names(&["/a", "/b", "/c"]));
    c.step(Event::Request(ToResolver::Unpublish(client_names(&["/b", "/zz"]))));
    c.step(Event::Reply(FromResolver::Unpublished));
    assert_eq!(c.published(), client_names(&["/a", "/c"]));

    // A resolve answered with Published teaches the client nothing.
    c.step(Event::Request(ToResolver::Resolve(client_names(&["/q"]))));
    c.step(Event::Reply(FromResolver::Published));
    assert_eq!(c.published(), client_names(&["/a", "/c"]));

    c.step(Event::Request(ToResolver::Clear));
    c.step(Event::Reply(FromResolver::Unpublished));
    assert_eq!(c.published(), Vec::<Path>::new());
}

#[test]
fn republish_comes_before_the_waiting_request() {
    let mut c = connected_writer();
    c.step(Event::Request(ToResolver::Publish(client_names(&["/y", "/x"]))));
    c.step(Event::Reply(FromResolver::Published));
    let req = ToResolver::Resolve(client_names(&["/x"]));
    assert!(matches!(c.step(Event::Request(req.clone())), Action::Send(_)));
    assert!(matches!(c.step(Event::Failed), Action::Connect { delay: 0 }));
    assert!(matches!(c.step(Event::Connected), Action::Hello(_)));
    let a = c.step(Event::Hello(ServerHello { ttl_expired: true }));
    assert!(matches!(a, Action::Send(m) if m == ToResolver::Publish(client_names(&["/x", "/y"]))));
    assert_eq!(c.phase(), Phase::Republishing);
    assert!(!c.is_connected());
    let a = c.step(Event::Reply(FromResolver::Published));
    assert!(matches!(a, Action::Send(m) if m == req));
    assert_eq!(c.phase(), Phase::Sending);
    assert_eq!(c.published(), client_names(&["/x", "/y"]));
}

#[test]
fn shutdown_stops_the_client_for_good() {
    let mut c = connected_writer();
    c.step(Event::Request(ToResolver::Clear));
    assert!(matches!(c.step(Event::Shutdown), Action::Exit));
    assert_eq!(c.phase(), Phase::Stopped);
    assert!(!c.is_connected());
    assert!(matches!(c.step(Event::Heartbeat), Action::Exit));
    assert!(matches!(c.step(Event::Reply(FromResolver::Unpublished)), Action::Exit));
    assert_eq!(c.phase(), Phase::Stopped);
}

#[test]
fn events_out_of_place_are_ignored() {
    let mut c = Client::new(Role::ReadOnly);
    assert!(matches!(c.step(Event::Connected), Action::Wait));
    assert!(matches!(c.step(Event::Failed), Action::Wait));
    assert!(matches!(c.step(Event::Reply(FromResolver::Published)), Action::Wait));
    assert_eq!(c.phase(), Phase::Idle);
    assert!(!c.is_connected());
    assert!(matches!(c.step(Event::Heartbeat), Action::Connect { delay: 0 }));
    // The client is busy connecting, and says so.
    assert!(matches!(c.step(Event::Heartbeat), Action::Connect { delay: 0 }));
    assert!(matches!(c.step(Event::Failed), Action::Connect { delay: 1 }));
    assert!(matches!(
        c.step(Event::Hello(ServerHello { ttl_expired: true })),
        Action::Connect { delay: 1 }
    ));
    assert_eq!(c.phase(), Phase::Connecting);
    assert!(matches!(c.step(Event::Connected), Action::Hello(ClientHello::ReadOnly)));
    assert!(matches!(c.step(Event::Linger), Action::Hello(ClientHello::ReadOnly)));
    assert!(matches!(c.awaited(), Action::Hello(ClientHello::ReadOnly)));
    assert_eq!(c.phase(), Phase::Greeting);
}

#[test]
fn request_for_a_busy_client_is_dropped() {
    let mut c = connected_writer();
    let first = ToResolver::Resolve(client_names(&["/a"]));
    let second = ToResolver::List(Path::new("/"));
    assert!(matches!(c.step(Event::Request(first.clone())), Action::Send(m) if m == first));
    assert!(matches!(c.step(Event::Request(second)), Action::Send(m) if m == first));
    assert!(matches!(c.awaited(), Action::Send(m) if m == first));
    assert!(matches!(
        c.step(Event::Reply(FromResolver::Resolved(vec![vec![]]))),
        Action::Deliver(FromResolver::Resolved(_))
    ));
    assert!(matches!(c.awaited(), Action::Wait));
}

#[test]
fn replies_are_sorted_out_for_the_caller() {
    let lists = vec![vec![me()], vec![]];
    assert_eq!(expect_resolved(FromResolver::Resolved(lists.clone())), Ok(lists));
    assert_eq!(
        expect_resolved(FromResolver::Error(String::from("relative path"))),
        Err(ReplyError::Server(String::from("relative path")))
    );
    assert_eq!(expect_resolved(FromResolver::Published), Err(ReplyError::Unexpected));
    assert_eq!(expect_list(FromResolver::List(client_names(&["/a"]))), Ok(client_names(&["/a"])));
    assert_eq!(expect_list(FromResolver::Resolved(vec![])), Err(ReplyError::Unexpected));
    assert_eq!(
        expect_list(FromResolver::Error(String::from("x"))),
        Err(ReplyError::Server(String::from("x")))
    );
    assert_eq!(expect_published(FromResolver::Published), Ok(()));
    assert_eq!(expect_published(FromResolver::Unpublished), Err(ReplyError::Unexpected));
    assert_eq!(
        expect_published(FromResolver::Error(String::from("relative path"))),
        Err(ReplyError::Server(String::from("relative path")))
    );
    assert_eq!(expect_unpublished(FromResolver::Unpublished), Ok(()));
    assert_eq!(expect_unpublished(FromResolver::Published), Err(ReplyError::Unexpected));
    assert_eq!(
        expect_unpublished(FromResolver::Error(String::new())),
        Err(ReplyError::Server(String::new()))
    );
    assert_eq!(ReplyError::Unexpected.message(), "unexpected response");
    assert_eq!(ReplyError::Server(String::from("relative path")).message(), "relative path");
}
