use resolver::endpoint::Endpoint;
use resolver::path::Path;
use resolver::protocol::{batch_needs_write, ClientHello, FromResolver, ServerHello, ToResolver};
use resolver::registry::{Registry, Upsert};
use resolver::protocol::{MAX_TTL, MIN_TTL};
use resolver::server::{
    Context, Session, SessionError, Welcome, MAX_BATCH, READ_ONLY_TTL, SCAVENGE_PERIOD,
};
use resolver::stops::Stops;

fn wa() -> Endpoint {
    Endpoint::v4(192, 168, 0, 1, 5000)
}

fn wb() -> Endpoint {
    Endpoint { ip: resolver::endpoint::Ip::V6(0xfe80, 0, 0, 0, 0, 0, 0, 1), port: 5000 }
}

fn peer() -> Endpoint {
    Endpoint::v4(192, 168, 0, 7, 61000)
}

fn session_names(list: &[&str]) -> Vec<Path> {
    list.iter().map(|n| Path::new(n)).collect()
}

fn rw_session(ctx: &mut Context, addr: Endpoint, ttl: u64, cancel: u64, now: u64) -> Session {
    let mut s = Session::new();
    ctx.hello(&mut s, ClientHello::ReadWrite { ttl, write_addr: addr }, peer(), cancel, now)
        .unwrap();
    s
}

#[test]
fn registry_upsert_touch_expire_forget() {
    let mut r = Registry::new();
    assert_eq!(r.len(), 0);
    assert_eq!(r.upsert(wa(), 10, 1, 100), Upsert { ttl_expired: true, signal: None });
    assert_eq!(r.upsert(wb(), 20, 2, 100), Upsert { ttl_expired: true, signal: None });
    assert!(r.add_path(wa(), Path::new("/x")));
    assert!(r.add_path(wa(), Path::new("/a")));
    assert!(!r.add_path(peer(), Path::new("/a")));
    // A writer that comes back keeps its paths and its time to live.
    assert_eq!(r.upsert(wa(), 3600, 3, 105), Upsert { ttl_expired: false, signal: Some(1) });
    assert_eq!(r.published(wa()), Some(session_names(&["/a", "/x"])));
    assert_eq!(r.published(peer()), None);
    assert_eq!(r.len(), 2);
    // now - last_seen > ttl, strictly
    assert_eq!(r.expire(115), Vec::<Endpoint>::new());
    assert_eq!(r.expire(116), vec![wa()]);
    assert_eq!(r.expire(120), vec![wa()]);
    assert_eq!(r.expire(121), vec![wa(), wb()]);
    assert!(r.touch(wa(), 120));
    assert!(!r.touch(peer(), 120));
    assert_eq!(r.expire(121), vec![wb()]);
    // A clock that goes back makes nobody expire.
    assert_eq!(r.expire(0), Vec::<Endpoint>::new());
    assert!(r.remove_path(wa(), &Path::new("/a")));
    assert!(!r.remove_path(peer(), &Path::new("/a")));
    let f = r.forget(wa()).unwrap();
    assert_eq!(f.published, session_names(&["/x"]));
    assert_eq!(f.cancel, 3);
    assert!(r.forget(wa()).is_none());
    assert!(!r.contains(wa()));
    assert!(r.contains(wb()));
    assert!(r.clear_paths(wb()));
    assert!(!r.clear_paths(wa()));
    assert_eq!(r.published(wb()), Some(vec![]));
}

#[test]
fn hello_read_only_gets_a_record_of_its_own() {
    let mut ctx = Context::new();
    let mut s = Session::new();
    assert_eq!(s, Session::AwaitHello);
    assert!(!s.is_running());
    let w = ctx.hello(&mut s, ClientHello::ReadOnly, peer(), 5, 42).unwrap();
    assert_eq!(w, Welcome { reply: ServerHello { ttl_expired: false }, signal: None });
    assert_eq!(s, Session::ReadOnly { peer: peer(), ttl: 120, last_seen: 42 });
    assert_eq!(READ_ONLY_TTL, 120);
    assert!(s.is_running());
    assert!(!ctx.is_registered(peer()));
    s.touch(50);
    assert_eq!(s, Session::ReadOnly { peer: peer(), ttl: 120, last_seen: 50 });
}

#[test]
fn hello_checks_the_time_to_live() {
    let mut ctx = Context::new();
    for ttl in [0u64, 3601, u64::MAX] {
        let mut s = Session::new();
        let h = ClientHello::ReadWrite { ttl, write_addr: wa() };
        assert_eq!(ctx.hello(&mut s, h, peer(), 1, 0), Err(SessionError::TtlOutOfRange));
        assert_eq!(s, Session::Closed);
        assert!(!ctx.is_registered(wa()));
    }
    for ttl in [1u64, 3600] {
        let mut s = Session::new();
        let h = ClientHello::ReadWrite { ttl, write_addr: wa() };
        assert!(ctx.hello(&mut s, h, peer(), 1, 0).is_ok());
        assert_eq!(s, Session::ReadWrite { write_addr: wa() });
    }
}

#[test]
fn hello_twice_ends_the_session() {
    let mut ctx = Context::new();
    let mut s = Session::new();
    ctx.hello(&mut s, ClientHello::ReadOnly, peer(), 1, 0).unwrap();
    assert_eq!(
        ctx.hello(&mut s, ClientHello::ReadOnly, peer(), 1, 0),
        Err(SessionError::WrongPhase)
    );
    assert_eq!(s, Session::Closed);
    assert_eq!(ctx.hello(&mut s, ClientHello::ReadOnly, peer(), 1, 0), Err(SessionError::Closed));
    assert_eq!(ctx.handle_batch(&mut s, &vec![], 0), Err(SessionError::Closed));
}

#[test]
fn requests_before_hello_end_the_session() {
    let mut ctx = Context::new();
    let mut s = Session::new();
    assert_eq!(
        ctx.handle_batch(&mut s, &vec![ToResolver::List(Path::new("/"))], 0),
        Err(SessionError::WrongPhase)
    );
    assert_eq!(s, Session::Closed);
}

#[test]
fn hello_of_a_known_writer_signals_the_old_session() {
    let mut ctx = Context::new();
    let mut first = rw_session(&mut ctx, wa(), 60, 7, 0);
    let r = ctx.handle_batch(&mut first, &vec![ToResolver::Publish(session_names(&["/p"]))], 1);
    assert_eq!(r, Ok(vec![FromResolver::Published]));
    let mut second = Session::new();
    let h = ClientHello::ReadWrite { ttl: 5, write_addr: wa() };
    let w = ctx.hello(&mut second, h, peer(), 8, 50).unwrap();
    assert_eq!(w, Welcome { reply: ServerHello { ttl_expired: false }, signal: Some(7) });
    // The paths are still there, and the first time to live still counts.
    assert_eq!(ctx.resolve(&session_names(&["/p"])), FromResolver::Resolved(vec![vec![wa()]]));
    assert_eq!(ctx.scavenge(110), Vec::<u64>::new());
    assert_eq!(ctx.scavenge(111), vec![8]);
}

#[test]
fn write_on_read_only_session_ends_it_and_changes_nothing() {
    let mut ctx = Context::new();
    let mut w = rw_session(&mut ctx, wa(), 60, 1, 0);
    ctx.handle_batch(&mut w, &vec![ToResolver::Publish(session_names(&["/p"]))], 0).unwrap();
    let mut s = Session::new();
    ctx.hello(&mut s, ClientHello::ReadOnly, peer(), 2, 0).unwrap();
    let batch = vec![
        ToResolver::Resolve(session_names(&["/p"])),
        ToResolver::Unpublish(session_names(&["/p"])),
    ];
    assert!(batch_needs_write(&batch));
    assert_eq!(ctx.handle_batch(&mut s, &batch, 1), Err(SessionError::ReadOnly));
    assert_eq!(s, Session::Closed);
    assert_eq!(ctx.resolve(&session_names(&["/p"])), FromResolver::Resolved(vec![vec![wa()]]));
    let mut s = Session::new();
    ctx.hello(&mut s, ClientHello::ReadOnly, peer(), 2, 0).unwrap();
    assert_eq!(ctx.handle_batch(&mut s, &vec![ToResolver::Clear], 1), Err(SessionError::ReadOnly));
}

#[test]
fn batch_of_a_scavenged_writer_ends_its_session() {
    let mut ctx = Context::new();
    let mut w = rw_session(&mut ctx, wa(), 1, 1, 0);
    assert_eq!(ctx.scavenge(2), vec![1]);
    let batch = vec![ToResolver::Publish(session_names(&["/p"]))];
    assert_eq!(ctx.handle_batch(&mut w, &batch, 3), Err(SessionError::Expired));
    assert_eq!(w, Session::Closed);
    assert_eq!(ctx.list(&Path::new("/")), FromResolver::List(vec![]));
}

#[test]
fn batch_answers_in_request_order() {
    let mut ctx = Context::new();
    let mut w = rw_session(&mut ctx, wa(), 60, 1, 0);
    let batch = vec![
        ToResolver::Resolve(session_names(&["/p"])),
        ToResolver::Publish(session_names(&["/p", "/q"])),
        ToResolver::Resolve(session_names(&["/p"])),
        ToResolver::List(Path::new("/")),
        ToResolver::Unpublish(session_names(&["/p"])),
        ToResolver::Resolve(session_names(&["/p", "/q"])),
        ToResolver::Publish(session_names(&["q"])),
        ToResolver::Unpublish(session_names(&["/q", "p"])),
        ToResolver::List(Path::new("x")),
        ToResolver::Resolve(session_names(&["/q", "q"])),
        ToResolver::Clear,
        ToResolver::List(Path::new("/")),
    ];
    let relative = || FromResolver::Error(String::from("relative path"));
    let want = vec![
        FromResolver::Resolved(vec![vec![]]),
        FromResolver::Published,
        FromResolver::Resolved(vec![vec![wa()]]),
        FromResolver::List(session_names(&["/p", "/q"])),
        FromResolver::Unpublished,
        FromResolver::Resolved(vec![vec![], vec![wa()]]),
        relative(),
        relative(),
        relative(),
        relative(),
        FromResolver::Unpublished,
        FromResolver::List(vec![]),
    ];
    assert_eq!(ctx.handle_batch(&mut w, &batch, 5), Ok(want));
    // The batch counted as a sign of life at time 5.
    assert_eq!(ctx.scavenge(65), Vec::<u64>::new());
    assert_eq!(ctx.scavenge(66), vec![1]);
}

#[test]
fn read_batch_answers_only_reads() {
    let mut ctx = Context::new();
    let mut w = rw_session(&mut ctx, wa(), 60, 1, 0);
    ctx.handle_batch(&mut w, &vec![ToResolver::Publish(session_names(&["/p/q"]))], 0).unwrap();
    let reads = vec![
        ToResolver::List(Path::new("/p")),
        ToResolver::Resolve(session_names(&["/p/q", "/p"])),
    ];
    assert!(!batch_needs_write(&reads));
    assert_eq!(
        ctx.read_batch(&reads),
        Some(vec![
            FromResolver::List(session_names(&["/p/q"])),
            FromResolver::Resolved(vec![vec![wa()], vec![]]),
        ])
    );
    assert_eq!(ctx.read_batch(&vec![ToResolver::Clear]), None);
    assert_eq!(ctx.read_batch(&vec![]), Some(vec![]));
}

#[test]
fn clear_withdraws_everything_of_one_writer_only() {
    let mut ctx = Context::new();
    let mut a = rw_session(&mut ctx, wa(), 60, 1, 0);
    let mut b = rw_session(&mut ctx, wb(), 60, 2, 0);
    ctx.handle_batch(&mut a, &vec![ToResolver::Publish(session_names(&["/p", "/q"]))], 0).unwrap();
    ctx.handle_batch(&mut b, &vec![ToResolver::Publish(session_names(&["/q", "/r"]))], 0).unwrap();
    assert_eq!(ctx.handle_batch(&mut a, &vec![ToResolver::Clear], 1), Ok(vec![FromResolver::Unpublished]));
    assert_eq!(
        ctx.resolve(&session_names(&["/p", "/q", "/r"])),
        FromResolver::Resolved(vec![vec![], vec![wb()], vec![wb()]])
    );
    assert!(ctx.is_registered(wa()));
}

#[test]
fn unpublish_of_another_writers_path_changes_nothing() {
    let mut ctx = Context::new();
    let mut a = rw_session(&mut ctx, wa(), 60, 1, 0);
    let mut b = rw_session(&mut ctx, wb(), 60, 2, 0);
    ctx.handle_batch(&mut a, &vec![ToResolver::Publish(session_names(&["/p"]))], 0).unwrap();
    let r = ctx.handle_batch(&mut b, &vec![ToResolver::Unpublish(session_names(&["/p"]))], 0);
    assert_eq!(r, Ok(vec![FromResolver::Unpublished]));
    assert_eq!(ctx.resolve(&session_names(&["/p"])), FromResolver::Resolved(vec![vec![wa()]]));
}

#[test]
fn timeout_client_forgets_one_writer() {
    let mut ctx = Context::new();
    let mut a = rw_session(&mut ctx, wa(), 60, 11, 0);
    let mut b = rw_session(&mut ctx, wb(), 60, 12, 0);
    ctx.handle_batch(&mut a, &vec![ToResolver::Publish(session_names(&["/p", "/q"]))], 0).unwrap();
    ctx.handle_batch(&mut b, &vec![ToResolver::Publish(session_names(&["/q"]))], 0).unwrap();
    assert_eq!(ctx.timeout_client(wa()), Some(11));
    assert_eq!(ctx.timeout_client(wa()), None);
    assert_eq!(ctx.timeout_client(peer()), None);
    assert_eq!(
        ctx.resolve(&session_names(&["/p", "/q"])),
        FromResolver::Resolved(vec![vec![], vec![wb()]])
    );
    assert_eq!(ctx.list(&Path::new("/")), FromResolver::List(session_names(&["/q"])));
}

#[test]
fn scavenger_takes_every_expired_writer_in_one_run() {
    let mut ctx = Context::new();
    let mut a = rw_session(&mut ctx, wa(), 10, 1, 0);
    let mut b = rw_session(&mut ctx, wb(), 20, 2, 0);
    let mut c = rw_session(&mut ctx, peer(), 3600, 3, 0);
    for s in [&mut a, &mut b, &mut c] {
        ctx.handle_batch(s, &vec![ToResolver::Publish(session_names(&["/shared"]))], 0).unwrap();
    }
    assert_eq!(
        ctx.resolve(&session_names(&["/shared"])),
        FromResolver::Resolved(vec![vec![wa(), wb(), peer()]])
    );
    assert_eq!(ctx.scavenge(21), vec![1, 2]);
    assert_eq!(ctx.resolve(&session_names(&["/shared"])), FromResolver::Resolved(vec![vec![peer()]]));
    assert_eq!(ctx.scavenge(21), Vec::<u64>::new());
}

#[test]
fn resolve_and_list_refuse_relative_paths() {
    let ctx = Context::new();
    let relative = FromResolver::Error(String::from("relative path"));
    assert_eq!(ctx.resolve(&session_names(&["/a", "b"])), relative);
    assert_eq!(ctx.list(&Path::new("")), relative);
    assert_eq!(ctx.list(&Path::new("a/")), relative);
    assert_eq!(ctx.resolve(&vec![]), FromResolver::Resolved(vec![]));
}

#[test]
fn session_close() {
    let mut s = Session::new();
    s.close();
    assert_eq!(s, Session::Closed);
    assert!(!s.is_running());
}

#[test]
fn stops_make_remove_stop() {
    let mut s = Stops::new();
    assert_eq!(s.make(), Some(0));
    assert_eq!(s.make(), Some(1));
    assert_eq!(s.make(), Some(2));
    assert!(s.remove(1));
    assert!(!s.remove(1));
    assert!(!s.remove(17));
    assert_eq!(s.make(), Some(3));
    assert_eq!(s.stop(), vec![0, 2, 3]);
    assert_eq!(s.stop(), Vec::<u64>::new());
    // Handles are not made twice.
    assert_eq!(s.make(), Some(4));
}

#[test]
fn limits() {
    assert_eq!(MIN_TTL, 1);
    assert_eq!(MAX_TTL, 3600);
    assert_eq!(READ_ONLY_TTL, 120);
    assert_eq!(SCAVENGE_PERIOD, 10);
    assert_eq!(MAX_BATCH, 10000);
}
