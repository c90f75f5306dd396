use resolver::batch::{BatchItem, Batched, Emit, Polled};
use resolver::endpoint::{check_addr, AddrError, Endpoint, Ip};
use resolver::escape::{is_sep, split_escaped, splitn_escaped};
use resolver::token::{bytes, bytesmut, make_sha3_token, to_vec, token_with_salt, u64_to_be_bytes};
use sha3::{Digest, Sha3_512};

fn at(ip: Ip) -> Endpoint {
    Endpoint { ip, port: 1 }
}

#[test]
fn is_sep_tracks_escapes() {
    let mut esc = false;
    assert!(is_sep(&mut esc, '/', '\\', '/'));
    assert!(!esc);
    assert!(!is_sep(&mut esc, '\\', '\\', '/'));
    assert!(esc);
    assert!(!is_sep(&mut esc, '/', '\\', '/'));
    // A separator leaves the state as it is.
    assert!(esc);
    assert!(!is_sep(&mut esc, 'a', '\\', '/'));
    assert!(!esc);
    // Two escapes in a row escape nothing.
    assert!(!is_sep(&mut esc, '\\', '\\', '/'));
    assert!(!is_sep(&mut esc, '\\', '\\', '/'));
    assert!(!esc);
    assert!(is_sep(&mut esc, '/', '\\', '/'));
}

#[test]
fn split_escaped_cuts_at_unescaped_separators() {
    assert_eq!(split_escaped("a/b/c", '\\', '/'), vec!["a", "b", "c"]);
    assert_eq!(split_escaped("/a/b", '\\', '/'), vec!["", "a", "b"]);
    assert_eq!(split_escaped("a/", '\\', '/'), vec!["a", ""]);
    assert_eq!(split_escaped("", '\\', '/'), vec![""]);
    assert_eq!(split_escaped("abc", '\\', '/'), vec!["abc"]);
    assert_eq!(split_escaped(r"a\/b/c", '\\', '/'), vec![r"a\/b", "c"]);
    assert_eq!(split_escaped(r"a\\/b", '\\', '/'), vec![r"a\\", "b"]);
    assert_eq!(split_escaped(r"a\\\/b", '\\', '/'), vec![r"a\\\/b"]);
    assert_eq!(split_escaped("é/ü/", '\\', '/'), vec!["é", "ü", ""]);
    // It is what the standard splitter does with the same test.
    for s in ["a/b/c", r"x\/y//z\\/w", r"\//\//", "//", r"\", "é\\/ü/ß"] {
        let mut esc = false;
        let want: Vec<&str> = s.split(|c| is_sep(&mut esc, c, '\\', '/')).collect();
        assert_eq!(split_escaped(s, '\\', '/'), want);
        assert_eq!(split_escaped(s, '\\', '/').join("/"), s);
    }
}

#[test]
fn splitn_escaped_stops_after_n_pieces() {
    assert_eq!(splitn_escaped("a/b/c", 0, '\\', '/'), Vec::<&str>::new());
    assert_eq!(splitn_escaped("a/b/c", 1, '\\', '/'), vec!["a/b/c"]);
    assert_eq!(splitn_escaped("a/b/c", 2, '\\', '/'), vec!["a", "b/c"]);
    assert_eq!(splitn_escaped("a/b/c", 3, '\\', '/'), vec!["a", "b", "c"]);
    assert_eq!(splitn_escaped("a/b/c", 9, '\\', '/'), vec!["a", "b", "c"]);
    assert_eq!(splitn_escaped(r"a\/b/c/d", 2, '\\', '/'), vec![r"a\/b", "c/d"]);
    assert_eq!(splitn_escaped("", 3, '\\', '/'), vec![""]);
    for s in ["a/b/c", r"x\/y//z\\/w", r"\//\//", "//", "é\\/ü/ß"] {
        for n in 0..6 {
            let mut esc = false;
            let want: Vec<&str> = s.splitn(n, |c| is_sep(&mut esc, c, '\\', '/')).collect();
            assert_eq!(splitn_escaped(s, n, '\\', '/'), want);
        }
    }
}

#[test]
fn check_addr_names_the_first_fault() {
    let public = vec![at(Ip::V4(8, 8, 8, 8))];
    let private = vec![at(Ip::V4(10, 0, 0, 1)), at(Ip::V4(172, 31, 0, 1)), at(Ip::V6(0, 0, 0, 0, 0, 0, 0, 9))];
    let local = vec![at(Ip::V4(127, 0, 0, 1)), at(Ip::V6(0, 0, 0, 0, 0, 0, 0, 1))];
    assert_eq!(check_addr(Ip::V4(8, 8, 4, 4), &public), Ok(()));
    assert_eq!(check_addr(Ip::V4(169, 254, 1, 1), &public), Err(AddrError::LinkLocal));
    assert_eq!(check_addr(Ip::V4(255, 255, 255, 255), &public), Err(AddrError::Broadcast));
    assert_eq!(check_addr(Ip::V4(0, 0, 0, 0), &public), Err(AddrError::Unspecified));
    assert_eq!(check_addr(Ip::V6(0, 0, 0, 0, 0, 0, 0, 0), &public), Err(AddrError::Unspecified));
    assert_eq!(check_addr(Ip::V4(224, 0, 0, 1), &public), Err(AddrError::Multicast));
    assert_eq!(check_addr(Ip::V4(239, 255, 255, 255), &public), Err(AddrError::Multicast));
    assert_eq!(check_addr(Ip::V4(240, 0, 0, 1), &public), Ok(()));
    assert_eq!(check_addr(Ip::V6(0xff02, 0, 0, 0, 0, 0, 0, 1), &public), Err(AddrError::Multicast));
    assert_eq!(check_addr(Ip::V6(0xfe80, 0, 0, 0, 0, 0, 0, 1), &public), Ok(()));
    for ip in [Ip::V4(10, 1, 1, 1), Ip::V4(172, 16, 0, 1), Ip::V4(192, 168, 1, 1)] {
        assert_eq!(check_addr(ip, &public), Err(AddrError::PrivateMismatch));
        assert_eq!(check_addr(ip, &private), Ok(()));
        assert_eq!(check_addr(ip, &[]), Ok(()));
    }
    assert_eq!(check_addr(Ip::V4(172, 15, 0, 1), &public), Ok(()));
    assert_eq!(check_addr(Ip::V4(172, 32, 0, 1), &public), Ok(()));
    assert_eq!(check_addr(Ip::V4(192, 169, 0, 1), &public), Ok(()));
    for ip in [Ip::V4(127, 0, 0, 1), Ip::V4(127, 9, 9, 9), Ip::V6(0, 0, 0, 0, 0, 0, 0, 1)] {
        assert_eq!(check_addr(ip, &public), Err(AddrError::LoopbackMismatch));
        assert_eq!(check_addr(ip, &local), Ok(()));
    }
    let mixed = vec![at(Ip::V4(127, 0, 0, 1)), at(Ip::V4(8, 8, 8, 8))];
    assert_eq!(check_addr(Ip::V4(127, 0, 0, 1), &mixed), Err(AddrError::LoopbackMismatch));
    assert_eq!(AddrError::LinkLocal.message(), "addr is a link local address");
    assert_eq!(AddrError::Broadcast.message(), "addr is a broadcast address");
    assert_eq!(
        AddrError::PrivateMismatch.message(),
        "addr is a private address, and the resolver is not"
    );
    assert_eq!(AddrError::Unspecified.message(), "addr is an unspecified address");
    assert_eq!(AddrError::Multicast.message(), "addr is a multicast address");
    assert_eq!(
        AddrError::LoopbackMismatch.message(),
        "addr is a loopback address and the resolver is not"
    );
}

#[test]
fn ip_classes() {
    assert!(Ip::V4(169, 254, 0, 0).is_link_local_v4());
    assert!(!Ip::V4(169, 253, 0, 0).is_link_local_v4());
    assert!(!Ip::V6(169, 254, 0, 0, 0, 0, 0, 0).is_link_local_v4());
    assert!(Ip::V4(255, 255, 255, 255).is_broadcast_v4());
    assert!(!Ip::V4(255, 255, 255, 254).is_broadcast_v4());
    assert!(Ip::V4(10, 255, 0, 1).is_private_v4());
    assert!(!Ip::V4(11, 0, 0, 1).is_private_v4());
    assert!(Ip::V4(0, 0, 0, 0).is_unspecified());
    assert!(!Ip::V4(0, 0, 0, 1).is_unspecified());
    assert!(!Ip::V6(0, 0, 0, 0, 0, 0, 0, 1).is_unspecified());
    assert!(Ip::V6(0xff00, 0, 0, 0, 0, 0, 0, 0).is_multicast());
    assert!(!Ip::V6(0xfeff, 0, 0, 0, 0, 0, 0, 0).is_multicast());
    assert!(Ip::V4(127, 255, 255, 255).is_loopback());
    assert!(!Ip::V4(128, 0, 0, 1).is_loopback());
    assert!(!Ip::V6(0, 0, 0, 0, 0, 0, 1, 1).is_loopback());
}

fn drive(b: &mut Batched<()>, polls: Vec<Polled<u8>>) -> Vec<String> {
    let mut polls = polls.into_iter();
    let mut held: Option<Polled<u8>> = None;
    let mut seen = Vec::new();
    loop {
        let next = match held.take().or_else(|| polls.next()) {
            Some(p) => p,
            None => return seen,
        };
        let (emit, back) = b.poll_with(next);
        held = back;
        seen.push(match emit {
            Emit::Ready(BatchItem::InBatch(v)) => format!("{}", v),
            Emit::Ready(BatchItem::EndBatch) => String::from("end"),
            Emit::Pending => String::from("pending"),
            Emit::Done => String::from("done"),
        });
        if seen.len() > 64 {
            return seen;
        }
    }
}

#[test]
fn batches_end_when_nothing_is_ready_or_the_bound_is_reached() {
    let mut b = Batched::new((), 3);
    let polls = vec![
        Polled::Item(1),
        Polled::Item(2),
        Polled::Pending,
        Polled::Pending,
        Polled::Item(3),
        Polled::Item(4),
        Polled::Item(5),
        Polled::Item(6),
        Polled::Finished,
    ];
    assert_eq!(
        drive(&mut b, polls),
        vec!["1", "2", "end", "pending", "3", "4", "5", "end", "6", "end"]
    );
    assert!(b.is_terminated());
    assert!(matches!(b.unpolled::<u8>(), Some(Emit::Done)));
    assert!(matches!(b.poll_with(Polled::Item(9u8)), (Emit::Done, Some(Polled::Item(9)))));
}

#[test]
fn batched_stream_without_items() {
    let mut b = Batched::new("inner", 10);
    assert_eq!(*b.inner(), "inner");
    *b.inner_mut() = "other";
    assert!(!b.is_terminated());
    assert!(b.unpolled::<u8>().is_none());
    assert!(matches!(b.polled(Polled::<u8>::Pending), Emit::Pending));
    assert!(matches!(b.polled(Polled::<u8>::Finished), Emit::Done));
    assert!(b.is_terminated());
    assert_eq!(b.into_inner(), "other");
}

#[test]
fn batched_with_bound_zero_only_ends_batches() {
    let mut b = Batched::new((), 0);
    assert!(matches!(b.unpolled::<u8>(), Some(Emit::Ready(BatchItem::EndBatch))));
    assert!(matches!(
        b.poll_with(Polled::Item(1u8)),
        (Emit::Ready(BatchItem::EndBatch), Some(Polled::Item(1)))
    ));
}

#[test]
fn byte_buffers_hold_a_copy() {
    let src = vec![1u8, 2, 3];
    let m = bytesmut(&src);
    assert_eq!(&m[..], &[1, 2, 3]);
    let b = bytes(&src);
    assert_eq!(&b[..], &[1, 2, 3]);
    assert_eq!(to_vec(&b), src);
    assert_eq!(to_vec(&bytes(&[])), Vec::<u8>::new());
}

#[test]
fn big_endian_bytes() {
    assert_eq!(u64_to_be_bytes(0x0102_0304_0506_0708), vec![1, 2, 3, 4, 5, 6, 7, 8]);
    assert_eq!(u64_to_be_bytes(1), vec![0, 0, 0, 0, 0, 0, 0, 1]);
}

#[test]
fn token_is_salt_and_digest() {
    let secret: [&[u8]; 3] = [b"se", b"", b"cret"];
    let token = token_with_salt(0x0102_0304_0506_0708, &secret);
    let mut h = Sha3_512::new();
    h.update([1u8, 2, 3, 4, 5, 6, 7, 8]);
    h.update(b"secret");
    let mut want = vec![1u8, 2, 3, 4, 5, 6, 7, 8];
    want.extend_from_slice(&h.finalize());
    assert_eq!(to_vec(&token), want);
    assert_eq!(token.len(), 72);
    assert_eq!(to_vec(&make_sha3_token(Some(0x0102_0304_0506_0708), &secret)), want);
    // The digest of the empty message after an all-zero salt is not the message.
    let none: [&[u8]; 0] = [];
    let t0 = to_vec(&token_with_salt(0, &none));
    assert_eq!(t0[..8], [0u8; 8]);
    assert_eq!(t0[8..], Sha3_512::digest([0u8; 8])[..]);
    assert_ne!(t0[8..16], [0u8; 8]);
}

#[test]
fn token_with_a_random_salt_checks_out() {
    let secret: [&[u8]; 1] = [b"secret"];
    let t = to_vec(&make_sha3_token(None, &secret));
    assert_eq!(t.len(), 72);
    let mut salt = [0u8; 8];
    salt.copy_from_slice(&t[..8]);
    let again = to_vec(&token_with_salt(u64::from_be_bytes(salt), &secret));
    assert_eq!(t, again);
}
