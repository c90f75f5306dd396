use resolver::codec::{
    decode_client_hello, decode_frame, decode_request, decode_response, decode_server_hello,
    encode_client_hello, encode_frame, encode_request, encode_response, encode_server_hello,
    Framed, MAX_FRAME,
};
use resolver::endpoint::{Endpoint, Ip};
use resolver::pack::{pack, Pack, PackError};
use resolver::path::Path;
use resolver::protocol::{ClientHello, FromResolver, ServerHello, ToResolver};
use resolver::wire::{
    get_bytes, get_endpoint, get_endpoint_lists, get_endpoints, get_paths, get_u16, get_u32,
    get_u64, put_bytes, put_endpoint, put_endpoint_lists, put_endpoints, put_paths, put_u16,
    put_u32, put_u64,
};

fn v4() -> Endpoint {
    Endpoint::v4(10, 0, 0, 1, 9000)
}

fn v6() -> Endpoint {
    Endpoint { ip: Ip::V6(0x2001, 0xdb8, 0, 0, 0, 0, 0xff00, 0x42), port: 443 }
}

fn wire_names(list: &[&str]) -> Vec<Path> {
    list.iter().map(|n| Path::new(n)).collect()
}

#[test]
fn integers_are_little_endian() {
    let mut out = vec![0xaa];
    put_u16(&mut out, 0x1234);
    put_u32(&mut out, 0x0102_0304);
    put_u64(&mut out, 0x0102_0304_0506_0708);
    assert_eq!(out, vec![0xaa, 0x34, 0x12, 4, 3, 2, 1, 8, 7, 6, 5, 4, 3, 2, 1]);
    assert_eq!(get_u16(&out, 1), Some((0x1234, 3)));
    assert_eq!(get_u32(&out, 3), Some((0x0102_0304, 7)));
    assert_eq!(get_u64(&out, 7), Some((0x0102_0304_0506_0708, 15)));
    assert_eq!(get_u16(&out, 14), None);
    assert_eq!(get_u32(&out, 12), None);
    assert_eq!(get_u64(&out, 8), None);
    assert_eq!(get_u64(&out, 15), None);
}

#[test]
fn byte_strings_carry_their_length() {
    let mut out = Vec::new();
    assert!(put_bytes(&mut out, b"/a/b"));
    assert!(put_bytes(&mut out, b""));
    assert_eq!(out, vec![4, 0, 0, 0, b'/', b'a', b'/', b'b', 0, 0, 0, 0]);
    assert_eq!(get_bytes(&out, 0), Some((b"/a/b".to_vec(), 8)));
    assert_eq!(get_bytes(&out, 8), Some((vec![], 12)));
    assert_eq!(get_bytes(&out, 12), None);
    // A length that promises more than there is.
    assert_eq!(get_bytes(&[5, 0, 0, 0, 1, 2, 3, 4], 0), None);
    assert_eq!(get_bytes(&[0xff, 0xff, 0xff, 0xff], 0), None);
}

#[test]
fn endpoints_on_the_wire() {
    let mut out = Vec::new();
    put_endpoint(&mut out, &v4());
    assert_eq!(out, vec![4, 10, 0, 0, 1, 0x28, 0x23]);
    assert_eq!(get_endpoint(&out, 0), Some((v4(), 7)));
    put_endpoint(&mut out, &v6());
    assert_eq!(
        out[7..],
        [6, 0x01, 0x20, 0xb8, 0x0d, 0, 0, 0, 0, 0, 0, 0, 0, 0x00, 0xff, 0x42, 0x00, 0xbb, 0x01]
    );
    assert_eq!(get_endpoint(&out, 7), Some((v6(), 26)));
    assert_eq!(get_endpoint(&out, 26), None);
    assert_eq!(get_endpoint(&out[..6], 0), None);
    assert_eq!(get_endpoint(&out[..25], 7), None);
    assert_eq!(get_endpoint(&[5, 10, 0, 0, 1, 0x28, 0x23], 0), None);
}

#[test]
fn lists_on_the_wire() {
    let mut out = Vec::new();
    assert!(put_paths(&mut out, &wire_names(&["/a", "b"])));
    assert_eq!(out, vec![2, 0, 0, 0, 2, 0, 0, 0, b'/', b'a', 1, 0, 0, 0, b'b']);
    assert_eq!(get_paths(&out, 0), Some((wire_names(&["/a", "b"]), 15)));
    assert_eq!(get_paths(&out[..14], 0), None);
    // A count that promises more than there is.
    assert_eq!(get_paths(&[3, 0, 0, 0, 0, 0, 0, 0, 0, 0, 0, 0], 0), None);

    let mut out = Vec::new();
    assert!(put_endpoints(&mut out, &vec![v4(), v6()]));
    assert_eq!(out.len(), 4 + 7 + 19);
    assert_eq!(get_endpoints(&out, 0), Some((vec![v4(), v6()], 30)));

    let lists = vec![vec![v4()], vec![], vec![v6(), v4()]];
    let mut out = vec![9, 9];
    assert!(put_endpoint_lists(&mut out, &lists));
    assert_eq!(get_endpoint_lists(&out, 2), Some((lists, out.len())));
    assert_eq!(get_endpoint_lists(&out[..out.len() - 1], 2), None);
}

#[test]
fn client_hello_bytes() {
    assert_eq!(encode_client_hello(&ClientHello::ReadOnly), vec![0]);
    let rw = ClientHello::ReadWrite { ttl: 60, write_addr: v4() };
    let bytes = encode_client_hello(&rw);
    assert_eq!(bytes, vec![1, 60, 0, 0, 0, 0, 0, 0, 0, 4, 10, 0, 0, 1, 0x28, 0x23]);
    assert_eq!(decode_client_hello(&bytes), Some(rw));
    assert_eq!(decode_client_hello(&[0]), Some(ClientHello::ReadOnly));
    let rw6 = ClientHello::ReadWrite { ttl: u64::MAX, write_addr: v6() };
    assert_eq!(decode_client_hello(&encode_client_hello(&rw6)), Some(rw6));
    // Nothing, too little, too much, an unknown tag.
    assert_eq!(decode_client_hello(&[]), None);
    assert_eq!(decode_client_hello(&bytes[..15]), None);
    assert_eq!(decode_client_hello(&[0, 0]), None);
    assert_eq!(decode_client_hello(&[2]), None);
    let mut long = bytes.clone();
    long.push(0);
    assert_eq!(decode_client_hello(&long), None);
}

#[test]
fn server_hello_bytes() {
    assert_eq!(encode_server_hello(&ServerHello { ttl_expired: false }), vec![0]);
    assert_eq!(encode_server_hello(&ServerHello { ttl_expired: true }), vec![1]);
    assert_eq!(decode_server_hello(&[0]), Some(ServerHello { ttl_expired: false }));
    assert_eq!(decode_server_hello(&[1]), Some(ServerHello { ttl_expired: true }));
    assert_eq!(decode_server_hello(&[2]), None);
    assert_eq!(decode_server_hello(&[]), None);
    assert_eq!(decode_server_hello(&[1, 0]), None);
}

#[test]
fn request_bytes() {
    let cases = vec![
        (ToResolver::Resolve(wire_names(&["/a"])), vec![0, 1, 0, 0, 0, 2, 0, 0, 0, b'/', b'a']),
        (ToResolver::List(Path::new("/a")), vec![1, 2, 0, 0, 0, b'/', b'a']),
        (ToResolver::Publish(vec![]), vec![2, 0, 0, 0, 0]),
        (ToResolver::Unpublish(wire_names(&[""])), vec![3, 1, 0, 0, 0, 0, 0, 0, 0]),
        (ToResolver::Clear, vec![4]),
    ];
    for (m, bytes) in cases {
        assert_eq!(encode_request(&m), Some(bytes.clone()));
        assert_eq!(decode_request(&bytes), Some(m));
        let mut long = bytes.clone();
        long.push(0);
        assert_eq!(decode_request(&long), None);
        assert_eq!(decode_request(&bytes[..bytes.len() - 1]), None);
    }
    assert_eq!(decode_request(&[5]), None);
    assert_eq!(decode_request(&[]), None);
}

#[test]
fn response_bytes() {
    let cases = vec![
        (
            FromResolver::Resolved(vec![vec![v4()], vec![]]),
            vec![0, 2, 0, 0, 0, 1, 0, 0, 0, 4, 10, 0, 0, 1, 0x28, 0x23, 0, 0, 0, 0],
        ),
        (FromResolver::List(wire_names(&["/a"])), vec![1, 1, 0, 0, 0, 2, 0, 0, 0, b'/', b'a']),
        (FromResolver::Published, vec![2]),
        (FromResolver::Unpublished, vec![3]),
        (
            FromResolver::Error(String::from("relative path")),
            {
                let mut v = vec![4, 13, 0, 0, 0];
                v.extend_from_slice(b"relative path");
                v
            },
        ),
        (FromResolver::Error(String::from("é")), vec![4, 2, 0, 0, 0, 0xc3, 0xa9]),
    ];
    for (m, bytes) in cases {
        assert_eq!(encode_response(&m), Some(bytes.clone()));
        assert_eq!(decode_response(&bytes), Some(m));
        let mut long = bytes.clone();
        long.push(0);
        assert_eq!(decode_response(&long), None);
        assert_eq!(decode_response(&bytes[..bytes.len() - 1]), None);
    }
    // The text of an error must be UTF-8.
    assert_eq!(decode_response(&[4, 1, 0, 0, 0, 0xff]), None);
    assert_eq!(decode_response(&[4, 2, 0, 0, 0, 0xc3, 0x28]), None);
    assert_eq!(decode_response(&[5]), None);
    assert_eq!(decode_response(&[]), None);
}

#[test]
fn frames() {
    assert_eq!(MAX_FRAME, 16 * 1024 * 1024 - 1);
    assert_eq!(encode_frame(b"abc"), Some(vec![3, 0, 0, 0, b'a', b'b', b'c']));
    assert_eq!(encode_frame(b""), Some(vec![0, 0, 0, 0]));
    assert_eq!(encode_frame(&vec![0u8; MAX_FRAME + 1]), None);
    assert_eq!(encode_frame(&vec![7u8; MAX_FRAME]).map(|f| f.len()), Some(MAX_FRAME + 4));

    assert_eq!(decode_frame(&[]), Framed::Incomplete);
    assert_eq!(decode_frame(&[3, 0, 0]), Framed::Incomplete);
    assert_eq!(decode_frame(&[3, 0, 0, 0, b'a', b'b']), Framed::Incomplete);
    assert_eq!(
        decode_frame(&[3, 0, 0, 0, b'a', b'b', b'c']),
        Framed::Frame { payload: b"abc".to_vec(), consumed: 7 }
    );
    // What follows a frame is left alone.
    assert_eq!(
        decode_frame(&[1, 0, 0, 0, 9, 2, 0, 0, 0, 8]),
        Framed::Frame { payload: vec![9], consumed: 5 }
    );
    assert_eq!(decode_frame(&[0, 0, 0, 0]), Framed::Frame { payload: vec![], consumed: 4 });
    assert_eq!(decode_frame(&[0, 0, 0, 1]), Framed::TooLarge);
    assert_eq!(decode_frame(&[0xff, 0xff, 0xff, 0]), Framed::Incomplete);
    assert_eq!(decode_frame(&[0xff, 0xff, 0xff, 0xff, 1, 2, 3]), Framed::TooLarge);
}

#[test]
fn a_stream_of_frames_gives_back_the_messages() {
    let messages = vec![
        ToResolver::Publish(wire_names(&["/a/b", "/a/c"])),
        ToResolver::Resolve(wire_names(&["/a/b", "/a/c", "/a/d"])),
        ToResolver::Clear,
    ];
    let mut stream = Vec::new();
    for m in &messages {
        stream.extend(encode_frame(&encode_request(m).unwrap()).unwrap());
    }
    let mut got = Vec::new();
    let mut at = 0;
    loop {
        match decode_frame(&stream[at..]) {
            Framed::Frame { payload, consumed } => {
                got.push(decode_request(&payload).unwrap());
                at += consumed;
            }
            Framed::Incomplete => break,
            Framed::TooLarge => panic!("too large"),
        }
    }
    assert_eq!(at, stream.len());
    assert_eq!(got, messages);
}

#[test]
fn pack_gives_the_encoding_in_a_buffer() {
    let m = ToResolver::List(Path::new("/a"));
    assert_eq!(&pack(&m).unwrap()[..], &[1, 2, 0, 0, 0, b'/', b'a']);
    assert_eq!(&pack(&FromResolver::Published).unwrap()[..], &[2]);
    assert_eq!(&pack(&ServerHello { ttl_expired: true }).unwrap()[..], &[1]);
    assert_eq!(&pack(&ClientHello::ReadOnly).unwrap()[..], &[0]);
    let mut buf = vec![7u8];
    assert_eq!(m.encode(&mut buf), Ok(()));
    assert_eq!(ToResolver::Clear.encode(&mut buf), Ok(()));
    assert_eq!(buf, vec![7, 1, 2, 0, 0, 0, b'/', b'a', 4]);
    assert_ne!(Err::<(), PackError>(PackError::TooLarge), Ok(()));
}
