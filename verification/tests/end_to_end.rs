use resolver::client::{Action, Client, Event, Phase, Role};
use resolver::endpoint::Endpoint;
use resolver::path::Path;
use resolver::protocol::{ClientHello, FromResolver, ServerHello, ToResolver};
use resolver::server::{Context, Session, Welcome};

fn w1() -> Endpoint {
    Endpoint::v4(10, 0, 0, 1, 9000)
}

fn w2() -> Endpoint {
    Endpoint::v4(10, 0, 0, 2, 9000)
}

fn reader_peer() -> Endpoint {
    Endpoint::v4(10, 0, 0, 9, 40000)
}

fn names(list: &[&str]) -> Vec<Path> {
    list.iter().map(|n| Path::new(n)).collect()
}

fn writer(ctx: &mut Context, addr: Endpoint, ttl: u64, cancel: u64, now: u64) -> (Session, Welcome) {
    let mut session = Session::new();
    let hello = ClientHello::ReadWrite { ttl, write_addr: addr };
    let welcome = ctx.hello(&mut session, hello, addr, cancel, now).unwrap();
    (session, welcome)
}

fn reader(ctx: &mut Context, now: u64) -> Session {
    let mut session = Session::new();
    let welcome = ctx.hello(&mut session, ClientHello::ReadOnly, reader_peer(), 99, now).unwrap();
    assert_eq!(welcome.reply, ServerHello { ttl_expired: false });
    assert_eq!(welcome.signal, None);
    session
}

fn ask(ctx: &mut Context, session: &mut Session, req: ToResolver, now: u64) -> FromResolver {
    let mut out = ctx.handle_batch(session, &vec![req], now).unwrap();
    assert_eq!(out.len(), 1);
    out.pop().unwrap()
}

/// A server where W1 has published `/a/b` and `/a/c` at time 0, with a time
/// to live of 60 seconds.
fn one_writer_two_paths() -> (Context, Session) {
    let mut ctx = Context::new();
    let (mut s, welcome) = writer(&mut ctx, w1(), 60, 1, 0);
    assert_eq!(welcome.reply, ServerHello { ttl_expired: true });
    let r = ask(&mut ctx, &mut s, ToResolver::Publish(names(&["/a/b", "/a/c"])), 0);
    assert_eq!(r, FromResolver::Published);
    (ctx, s)
}

#[test]
fn publish_then_resolve() {
    let (mut ctx, _w) = one_writer_two_paths();
    let mut r = reader(&mut ctx, 1);
    let got = ask(&mut ctx, &mut r, ToResolver::Resolve(names(&["/a/b", "/a/c", "/a/d"])), 1);
    assert_eq!(got, FromResolver::Resolved(vec![vec![w1()], vec![w1()], vec![]]));
}

#[test]
fn list_below_a_prefix() {
    let (mut ctx, _w) = one_writer_two_paths();
    let mut r = reader(&mut ctx, 1);
    let got = ask(&mut ctx, &mut r, ToResolver::List(Path::new("/a")), 1);
    assert_eq!(got, FromResolver::List(names(&["/a/b", "/a/c"])));
}

#[test]
fn scavenger_revokes_a_silent_writer() {
    let (mut ctx, _w) = one_writer_two_paths();
    // Exactly the time to live has passed: the writer has not expired yet.
    assert_eq!(ctx.scavenge(60), Vec::<u64>::new());
    let mut r = reader(&mut ctx, 60);
    let got = ask(&mut ctx, &mut r, ToResolver::Resolve(names(&["/a/b"])), 60);
    assert_eq!(got, FromResolver::Resolved(vec![vec![w1()]]));
    // One tick of the scavenger later it has.
    assert_eq!(ctx.scavenge(70), vec![1]);
    let got = ask(&mut ctx, &mut r, ToResolver::Resolve(names(&["/a/b"])), 70);
    assert_eq!(got, FromResolver::Resolved(vec![vec![]]));
    assert!(!ctx.is_registered(w1()));
}

#[test]
fn reconnect_publishes_anew() {
    // The client side of W1: it has published both paths.
    let mut ctx = Context::new();
    let mut client = Client::new(Role::ReadWrite(w1()));
    let first = ToResolver::Publish(names(&["/a/c", "/a/b"]));
    assert!(matches!(client.step(Event::Request(first)), Action::Connect { delay: 0 }));
    let hello = match client.step(Event::Connected) {
        Action::Hello(h) => h,
        other => panic!("unexpected action {:?}", other),
    };
    assert_eq!(hello, ClientHello::ReadWrite { ttl: 600, write_addr: w1() });
    let mut session = Session::new();
    let welcome = ctx.hello(&mut session, hello, w1(), 1, 0).unwrap();
    assert_eq!(welcome.reply, ServerHello { ttl_expired: true });
    // Nothing was published before, so the client publishes nothing anew.
    let republish = match client.step(Event::Hello(welcome.reply)) {
        Action::Send(m) => m,
        other => panic!("unexpected action {:?}", other),
    };
    assert_eq!(republish, ToResolver::Publish(vec![]));
    let reply = ask(&mut ctx, &mut session, republish, 0);
    let request = match client.step(Event::Reply(reply)) {
        Action::Send(m) => m,
        other => panic!("unexpected action {:?}", other),
    };
    let reply = ask(&mut ctx, &mut session, request, 0);
    assert!(matches!(client.step(Event::Reply(reply)), Action::Deliver(FromResolver::Published)));
    assert_eq!(client.published(), names(&["/a/b", "/a/c"]));

    // W1 stops heartbeating and is scavenged.
    assert_eq!(ctx.scavenge(700), vec![1]);
    let mut r = reader(&mut ctx, 700);
    let got = ask(&mut ctx, &mut r, ToResolver::Resolve(names(&["/a/b"])), 700);
    assert_eq!(got, FromResolver::Resolved(vec![vec![]]));

    // W1 finds out at its heartbeat: the connection is gone.
    assert!(matches!(client.step(Event::Linger), Action::Disconnect));
    assert!(matches!(client.step(Event::Heartbeat), Action::Connect { delay: 0 }));
    let hello = match client.step(Event::Connected) {
        Action::Hello(h) => h,
        other => panic!("unexpected action {:?}", other),
    };
    let mut session = Session::new();
    let welcome = ctx.hello(&mut session, hello, w1(), 2, 701).unwrap();
    assert_eq!(welcome.reply, ServerHello { ttl_expired: true });
    assert_eq!(welcome.signal, None);
    let republish = match client.step(Event::Hello(welcome.reply)) {
        Action::Send(m) => m,
        other => panic!("unexpected action {:?}", other),
    };
    assert_eq!(republish, ToResolver::Publish(names(&["/a/b", "/a/c"])));
    assert_eq!(client.phase(), Phase::Republishing);
    let reply = ask(&mut ctx, &mut session, republish, 701);
    assert_eq!(reply, FromResolver::Published);
    assert!(matches!(client.step(Event::Reply(reply)), Action::Wait));
    assert!(client.is_connected());

    let got = ask(&mut ctx, &mut r, ToResolver::Resolve(names(&["/a/b"])), 702);
    assert_eq!(got, FromResolver::Resolved(vec![vec![w1()]]));
    let got = ask(&mut ctx, &mut r, ToResolver::Resolve(names(&["/a/c"])), 702);
    assert_eq!(got, FromResolver::Resolved(vec![vec![w1()]]));
}

#[test]
fn two_publishers_of_one_path() {
    let (mut ctx, mut first) = one_writer_two_paths();
    let (mut second, welcome) = writer(&mut ctx, w2(), 30, 2, 10);
    assert_eq!(welcome.reply, ServerHello { ttl_expired: true });
    let r = ask(&mut ctx, &mut second, ToResolver::Publish(names(&["/a/b"])), 10);
    assert_eq!(r, FromResolver::Published);
    let mut r = reader(&mut ctx, 11);
    let got = ask(&mut ctx, &mut r, ToResolver::Resolve(names(&["/a/b"])), 11);
    assert_eq!(got, FromResolver::Resolved(vec![vec![w1(), w2()]]));

    // W1 keeps talking, W2 does not.
    let beat = ask(&mut ctx, &mut first, ToResolver::Resolve(vec![]), 40);
    assert_eq!(beat, FromResolver::Resolved(vec![]));
    assert_eq!(ctx.scavenge(41), vec![2]);
    let got = ask(&mut ctx, &mut r, ToResolver::Resolve(names(&["/a/b"])), 41);
    assert_eq!(got, FromResolver::Resolved(vec![vec![w1()]]));
    assert!(ctx.is_registered(w1()));
    assert!(!ctx.is_registered(w2()));
}

#[test]
fn relative_path_is_refused_in_band() {
    let (mut ctx, mut s) = one_writer_two_paths();
    let r = ask(&mut ctx, &mut s, ToResolver::Publish(names(&["a/b"])), 2);
    assert_eq!(r, FromResolver::Error(String::from("relative path")));
    // One bad path spoils the request: the good one is not published.
    let r = ask(&mut ctx, &mut s, ToResolver::Publish(names(&["/x", "a/b"])), 2);
    assert_eq!(r, FromResolver::Error(String::from("relative path")));
    let mut rd = reader(&mut ctx, 3);
    let got = ask(&mut ctx, &mut rd, ToResolver::List(Path::new("/")), 3);
    assert_eq!(got, FromResolver::List(names(&["/a/b", "/a/c"])));
    let got = ask(&mut ctx, &mut rd, ToResolver::Resolve(names(&["/x"])), 3);
    assert_eq!(got, FromResolver::Resolved(vec![vec![]]));
    // The session goes on.
    assert!(s.is_running());
}
