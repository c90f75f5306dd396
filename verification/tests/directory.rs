use resolver::endpoint::Endpoint;
use resolver::path::{copy_bytes, order_bytes, Order, Path};
use resolver::pathset::{lower_bound, PathSet};
use resolver::store::{Action, Change, Store, StoreError};

fn e1() -> Endpoint {
    Endpoint::v4(10, 0, 0, 1, 9000)
}

fn e2() -> Endpoint {
    Endpoint::v4(10, 0, 0, 2, 9000)
}

fn e3() -> Endpoint {
    Endpoint::v4(10, 0, 0, 3, 9000)
}

fn dir_names(list: &[&str]) -> Vec<Path> {
    list.iter().map(|n| Path::new(n)).collect()
}

#[test]
fn path_bytes_round_trip() {
    let p = Path::new("/a/b");
    assert_eq!(p.as_bytes(), b"/a/b");
    assert_eq!(p.len(), 4);
    assert_eq!(Path::from_bytes(b"/a/b".to_vec()), p);
    assert_eq!(p.clone().into_bytes(), b"/a/b".to_vec());
    assert_eq!(copy_bytes(b"xyz"), b"xyz".to_vec());
}

#[test]
fn path_is_absolute() {
    assert!(Path::new("/").is_absolute());
    assert!(Path::new("/a/b").is_absolute());
    assert!(!Path::new("a/b").is_absolute());
    assert!(!Path::new("").is_absolute());
}

#[test]
fn path_is_canonical() {
    assert!(Path::new("/").is_canonical());
    assert!(Path::new("/a").is_canonical());
    assert!(Path::new("/a/b c/d").is_canonical());
    assert!(!Path::new("").is_canonical());
    assert!(!Path::new("a").is_canonical());
    assert!(!Path::new("/a/").is_canonical());
    assert!(!Path::new("//").is_canonical());
    assert!(!Path::new("/a//b").is_canonical());
}

#[test]
fn path_order_is_bytewise() {
    assert_eq!(Path::new("/a").order(&Path::new("/b")), Order::Less);
    assert_eq!(Path::new("/b").order(&Path::new("/a")), Order::Greater);
    assert_eq!(Path::new("/a").order(&Path::new("/a")), Order::Equal);
    // A prefix comes before what it begins.
    assert_eq!(Path::new("/a").order(&Path::new("/a/b")), Order::Less);
    // '.' (0x2e) < '/' (0x2f) < '0' (0x30)
    assert_eq!(Path::new("/a.b").order(&Path::new("/a/b")), Order::Less);
    assert_eq!(Path::new("/a/b").order(&Path::new("/a0")), Order::Less);
    assert_eq!(order_bytes(b"", b""), Order::Equal);
    assert_eq!(order_bytes(b"", b"\0"), Order::Less);
    assert_eq!(order_bytes(&[0xff], &[0x7f, 0x00]), Order::Greater);
    assert!(Path::new("/é").equals(&Path::new("/\u{e9}")));
    assert!(!Path::new("/a").equals(&Path::new("/A")));
}

#[test]
fn path_descendants() {
    let a = Path::new("/a");
    assert!(Path::new("/a/b").is_strict_descendant_of(&a));
    assert!(Path::new("/a/b/c").is_strict_descendant_of(&a));
    assert!(!Path::new("/a").is_strict_descendant_of(&a));
    assert!(!Path::new("/ab").is_strict_descendant_of(&a));
    assert!(!Path::new("/b/a").is_strict_descendant_of(&a));
    let root = Path::new("/");
    assert!(Path::new("/a").is_strict_descendant_of(&root));
    assert!(!Path::new("/").is_strict_descendant_of(&root));
    assert!(!Path::new("a").is_strict_descendant_of(&root));
    assert_eq!(a.dir_prefix(), b"/a/".to_vec());
    assert_eq!(root.dir_prefix(), b"/".to_vec());
    assert_eq!(Path::new("").dir_prefix(), b"/".to_vec());
}

#[test]
fn pathset_keeps_order_and_drops_duplicates() {
    let mut s = PathSet::new();
    assert!(s.insert(Path::new("/m")));
    assert!(s.insert(Path::new("/a")));
    assert!(s.insert(Path::new("/z")));
    assert!(!s.insert(Path::new("/m")));
    assert_eq!(s.len(), 3);
    assert_eq!(s.to_vec(), dir_names(&["/a", "/m", "/z"]));
    assert_eq!(s.get(1), &Path::new("/m"));
    assert!(s.contains(&Path::new("/z")));
    assert!(!s.contains(&Path::new("/y")));
    assert!(s.remove(&Path::new("/m")));
    assert!(!s.remove(&Path::new("/m")));
    assert_eq!(s.to_vec(), dir_names(&["/a", "/z"]));
    s.extend(&dir_names(&["/q", "/a", "/b"]));
    assert_eq!(s.to_vec(), dir_names(&["/a", "/b", "/q", "/z"]));
    s.subtract(&dir_names(&["/a", "/nope", "/z"]));
    assert_eq!(s.to_vec(), dir_names(&["/b", "/q"]));
}

#[test]
fn lower_bound_finds_the_first_not_less() {
    let v = dir_names(&["/a", "/c", "/e"]);
    assert_eq!(lower_bound(&v, b"/"), 0);
    assert_eq!(lower_bound(&v, b"/a"), 0);
    assert_eq!(lower_bound(&v, b"/b"), 1);
    assert_eq!(lower_bound(&v, b"/c"), 1);
    assert_eq!(lower_bound(&v, b"/e"), 2);
    assert_eq!(lower_bound(&v, b"/f"), 3);
    assert_eq!(lower_bound(&Vec::new(), b"/f"), 0);
}

#[test]
fn store_publish_is_idempotent_and_keeps_insertion_order() {
    let mut s = Store::new();
    assert_eq!(s.len(), 0);
    assert_eq!(s.publish(Path::new("/p"), e2()), Ok(()));
    assert_eq!(s.publish(Path::new("/p"), e1()), Ok(()));
    assert_eq!(s.publish(Path::new("/p"), e2()), Ok(()));
    assert_eq!(s.publish(Path::new("/p"), e3()), Ok(()));
    assert_eq!(s.resolve(&Path::new("/p")), vec![e2(), e1(), e3()]);
    assert_eq!(s.len(), 1);
}

#[test]
fn store_refuses_relative_paths() {
    let mut s = Store::new();
    assert_eq!(s.publish(Path::new("p"), e1()), Err(StoreError::RelativePath));
    assert_eq!(s.publish(Path::new(""), e1()), Err(StoreError::RelativePath));
    assert_eq!(s.len(), 0);
    assert_eq!(s.resolve(&Path::new("p")), vec![]);
}

#[test]
fn store_unpublish_removes_the_entry_with_its_last_endpoint() {
    let mut s = Store::new();
    s.publish(Path::new("/p"), e1()).unwrap();
    s.publish(Path::new("/p"), e2()).unwrap();
    s.publish(Path::new("/p"), e3()).unwrap();
    s.unpublish(&Path::new("/p"), e2());
    assert_eq!(s.resolve(&Path::new("/p")), vec![e1(), e3()]);
    // Unpublishing what is not there changes nothing.
    s.unpublish(&Path::new("/p"), e2());
    s.unpublish(&Path::new("/q"), e1());
    assert_eq!(s.resolve(&Path::new("/p")), vec![e1(), e3()]);
    s.unpublish(&Path::new("/p"), e1());
    s.unpublish(&Path::new("/p"), e3());
    assert_eq!(s.resolve(&Path::new("/p")), vec![]);
    assert_eq!(s.len(), 0);
    assert_eq!(s.list(&Path::new("/")), vec![]);
}

#[test]
fn store_contents_follow_the_sequence_of_operations() {
    // publish a, b, c; unpublish b; publish d; unpublish a, a; publish b
    let mut s = Store::new();
    for p in ["/a", "/b", "/c"] {
        s.publish(Path::new(p), e1()).unwrap();
    }
    s.unpublish(&Path::new("/b"), e1());
    s.publish(Path::new("/d"), e1()).unwrap();
    s.unpublish(&Path::new("/a"), e1());
    s.unpublish(&Path::new("/a"), e1());
    s.publish(Path::new("/b"), e1()).unwrap();
    assert_eq!(s.list(&Path::new("/")), dir_names(&["/b", "/c", "/d"]));
    for p in ["/b", "/c", "/d"] {
        assert_eq!(s.resolve(&Path::new(p)), vec![e1()]);
    }
    assert_eq!(s.resolve(&Path::new("/a")), vec![]);
}

#[test]
fn store_resolve_after_publish_contains_the_endpoint() {
    let mut s = Store::new();
    s.publish(Path::new("/p"), e1()).unwrap();
    s.publish(Path::new("/p"), e2()).unwrap();
    s.unpublish(&Path::new("/p"), e1());
    s.publish(Path::new("/q"), e1()).unwrap();
    s.unpublish(&Path::new("/q"), e2());
    assert!(s.resolve(&Path::new("/p")).contains(&e2()));
    assert!(s.resolve(&Path::new("/q")).contains(&e1()));
}

#[test]
fn store_list_gives_the_strict_descendants_in_order() {
    let mut s = Store::new();
    for p in ["/b/x", "/a/c", "/a", "/ab", "/a/b/c", "/a/b", "/a.b", "/a0", "/", "/a/"] {
        s.publish(Path::new(p), e1()).unwrap();
    }
    assert_eq!(s.list(&Path::new("/a")), dir_names(&["/a/", "/a/b", "/a/b/c", "/a/c"]));
    assert_eq!(s.list(&Path::new("/a/")), dir_names(&["/a/b", "/a/b/c", "/a/c"]));
    assert_eq!(s.list(&Path::new("/a/b")), dir_names(&["/a/b/c"]));
    assert_eq!(s.list(&Path::new("/a/b/c")), vec![]);
    assert_eq!(s.list(&Path::new("/zz")), vec![]);
    assert_eq!(
        s.list(&Path::new("/")),
        dir_names(&["/a", "/a.b", "/a/", "/a/b", "/a/b/c", "/a/c", "/a0", "/ab", "/b/x"])
    );
    assert_eq!(s.len(), 10);
}

#[test]
fn store_bulk_change_applies_all_or_nothing() {
    let mut s = Store::new();
    s.publish(Path::new("/keep"), e1()).unwrap();
    let bad = vec![
        Change { path: Path::new("/new"), action: Action::Publish, endpoint: e1() },
        Change { path: Path::new("keep"), action: Action::Publish, endpoint: e1() },
    ];
    assert_eq!(s.bulk_change(&bad), Err(StoreError::RelativePath));
    assert_eq!(s.list(&Path::new("/")), dir_names(&["/keep"]));

    let good = vec![
        Change { path: Path::new("/new"), action: Action::Publish, endpoint: e1() },
        Change { path: Path::new("/new"), action: Action::Publish, endpoint: e2() },
        Change { path: Path::new("/keep"), action: Action::Unpublish, endpoint: e1() },
        Change { path: Path::new("relative"), action: Action::Unpublish, endpoint: e1() },
        Change { path: Path::new("/new"), action: Action::Unpublish, endpoint: e1() },
        Change { path: Path::new("/other"), action: Action::Publish, endpoint: e3() },
    ];
    assert_eq!(s.bulk_change(&good), Ok(()));
    assert_eq!(s.list(&Path::new("/")), dir_names(&["/new", "/other"]));
    assert_eq!(s.resolve(&Path::new("/new")), vec![e2()]);
    assert_eq!(s.resolve(&Path::new("/other")), vec![e3()]);
    assert_eq!(s.bulk_change(&Vec::new()), Ok(()));
}
