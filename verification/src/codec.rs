//! The wire format of the messages, and the framing of a stream.
//!
//! A message is a tag byte and, for most tags, a body made of the building
//! blocks of the wire module. On a stream each message travels as a frame:
//! the length of the message as a 32-bit little-endian integer, then the
//! message.
//!
//! Each decoder takes exactly what the encoder of its kind gives: it gives
//! back the message when the bytes are the encoding of one, and nothing
//! when they are the encoding of none.

use vstd::prelude::*;
use vstd::slice::{slice_subrange, slice_to_vec};
use vstd::string::StringSliceAdditionalSpecFns;
use vstd::utf8::{
    decode_utf8, decode_utf8_encode_utf8, encode_utf8, encode_utf8_decode_utf8,
    encode_utf8_valid_utf8, valid_utf8,
};
use crate::protocol::{ClientHello, FromResolver, Request, Response, ServerHello, ToResolver};
use crate::wire::{
    enc_bytes, enc_endpoint, enc_list, enc_u32, enc_u64, endpoints_enc, endpoints_parse,
    endpoints_valid, fits, get_bytes, get_endpoint, get_endpoint_lists, get_paths, get_u32, get_u64,
    lemma_bytes, lemma_endpoint, lemma_endpoints, lemma_ints, lemma_list, lemma_path, list_valid,
    parse_bytes, parse_endpoint, parse_list, parse_u32, parse_u64, path_enc, path_parse, path_valid,
    put_bytes, put_endpoint, put_endpoint_lists, put_paths, put_u64,
};

verus! {

/// The largest message that travels in a frame.
pub const MAX_FRAME: usize = 0x00ff_ffff;

/// The bytes of a client's hello.
pub open spec fn enc_client_hello(h: ClientHello) -> Seq<u8> {
    match h {
        ClientHello::ReadOnly => seq![0u8],
        ClientHello::ReadWrite { ttl, write_addr } => seq![1u8] + enc_u64(ttl) + enc_endpoint(
            write_addr,
        ),
    }
}

/// The bytes of the server's hello.
pub open spec fn enc_server_hello(h: ServerHello) -> Seq<u8> {
    if h.ttl_expired {
        seq![1u8]
    } else {
        seq![0u8]
    }
}

/// The bytes of a request.
pub open spec fn enc_request(m: Request) -> Seq<u8> {
    match m {
        Request::Resolve(ps) => seq![0u8] + enc_list(ps, path_enc()),
        Request::List(p) => seq![1u8] + enc_bytes(p),
        Request::Publish(ps) => seq![2u8] + enc_list(ps, path_enc()),
        Request::Unpublish(ps) => seq![3u8] + enc_list(ps, path_enc()),
        Request::Clear => seq![4u8],
    }
}

/// The bytes of an answer. The text of an error travels as UTF-8.
pub open spec fn enc_response(m: Response) -> Seq<u8> {
    match m {
        Response::Resolved(ls) => seq![0u8] + enc_list(ls, endpoints_enc()),
        Response::List(ps) => seq![1u8] + enc_list(ps, path_enc()),
        Response::Published => seq![2u8],
        Response::Unpublished => seq![3u8],
        Response::Error(s) => seq![4u8] + enc_bytes(encode_utf8(s)),
    }
}

/// A request that the format can hold: no list and no path in it is too
/// long.
pub open spec fn request_fits(m: Request) -> bool {
    match m {
        Request::Resolve(ps) => list_valid(ps, path_valid()),
        Request::List(p) => fits(p),
        Request::Publish(ps) => list_valid(ps, path_valid()),
        Request::Unpublish(ps) => list_valid(ps, path_valid()),
        Request::Clear => true,
    }
}

/// An answer that the format can hold.
pub open spec fn response_fits(m: Response) -> bool {
    match m {
        Response::Resolved(ls) => list_valid(ls, endpoints_valid()),
        Response::List(ps) => list_valid(ps, path_valid()),
        Response::Published => true,
        Response::Unpublished => true,
        Response::Error(s) => fits(encode_utf8(s)),
    }
}

/// The hello that stands in `b`, when `b` is the encoding of one.
pub open spec fn parse_client_hello(b: Seq<u8>) -> Option<ClientHello> {
    if b.len() == 1 && b[0] == 0 {
        Some(ClientHello::ReadOnly)
    } else if b.len() >= 1 && b[0] == 1 {
        match parse_u64(b.skip(1)) {
            Some((ttl, rest)) => match parse_endpoint(rest) {
                Some((write_addr, rest2)) => if rest2.len() == 0 {
                    Some(ClientHello::ReadWrite { ttl, write_addr })
                } else {
                    None
                },
                None => None,
            },
            None => None,
        }
    } else {
        None
    }
}

/// The request that stands in `b`, when `b` is the encoding of one.
pub open spec fn parse_request(b: Seq<u8>) -> Option<Request> {
    if b.len() == 0 {
        None
    } else if b[0] == 0 || b[0] == 2 || b[0] == 3 {
        match parse_list(b.skip(1), path_parse()) {
            Some((ps, rest)) => if rest.len() == 0 {
                Some(
                    if b[0] == 0 {
                        Request::Resolve(ps)
                    } else if b[0] == 2 {
                        Request::Publish(ps)
                    } else {
                        Request::Unpublish(ps)
                    },
                )
            } else {
                None
            },
            None => None,
        }
    } else if b[0] == 1 {
        match parse_bytes(b.skip(1)) {
            Some((p, rest)) => if rest.len() == 0 {
                Some(Request::List(p))
            } else {
                None
            },
            None => None,
        }
    } else if b[0] == 4 && b.len() == 1 {
        Some(Request::Clear)
    } else {
        None
    }
}

/// The answer that stands in `b`, when `b` is the encoding of one.
pub open spec fn parse_response(b: Seq<u8>) -> Option<Response> {
    if b.len() == 0 {
        None
    } else if b[0] == 0 {
        match parse_list(b.skip(1), endpoints_parse()) {
            Some((ls, rest)) => if rest.len() == 0 {
                Some(Response::Resolved(ls))
            } else {
                None
            },
            None => None,
        }
    } else if b[0] == 1 {
        match parse_list(b.skip(1), path_parse()) {
            Some((ps, rest)) => if rest.len() == 0 {
                Some(Response::List(ps))
            } else {
                None
            },
            None => None,
        }
    } else if b[0] == 2 && b.len() == 1 {
        Some(Response::Published)
    } else if b[0] == 3 && b.len() == 1 {
        Some(Response::Unpublished)
    } else if b[0] == 4 {
        match parse_bytes(b.skip(1)) {
            Some((text, rest)) => if rest.len() == 0 && valid_utf8(text) {
                Some(Response::Error(decode_utf8(text)))
            } else {
                None
            },
            None => None,
        }
    } else {
        None
    }
}

/// The parser of hellos takes exactly their encodings.
pub proof fn lemma_client_hello(b: Seq<u8>, h: ClientHello)
    ensures
        parse_client_hello(enc_client_hello(h)) == Some(h),
        parse_client_hello(b) == Some(h) ==> b == enc_client_hello(h),
{
    lemma_ints();
    lemma_endpoint();
    let e = enc_client_hello(h);
    if let ClientHello::ReadWrite { ttl, write_addr } = h {
        let none = Seq::<u8>::empty();
        assert(e.skip(1) =~= enc_u64(ttl) + (enc_endpoint(write_addr) + none));
        assert(parse_endpoint(enc_endpoint(write_addr) + none) == Some((write_addr, none)));
    }
    if parse_client_hello(b) == Some(h) {
        if b[0] == 1 {
            let (ttl, rest) = parse_u64(b.skip(1))->0;
            let (addr, rest2) = parse_endpoint(rest)->0;
            assert(b =~= seq![1u8] + b.skip(1));
            assert(rest2 =~= Seq::<u8>::empty());
            assert(b.skip(1) == enc_u64(ttl) + rest);
            assert(rest == enc_endpoint(addr) + rest2);
            assert(b =~= enc_client_hello(h));
        } else {
            assert(b =~= seq![0u8]);
        }
    }
}

/// The parser of requests takes exactly the encodings of the requests that
/// the format can hold.
pub proof fn lemma_request(b: Seq<u8>, m: Request)
    ensures
        request_fits(m) ==> parse_request(enc_request(m)) == Some(m),
        parse_request(b) == Some(m) ==> b == enc_request(m) && request_fits(m),
{
    lemma_bytes();
    lemma_path();
    lemma_list(path_enc(), path_parse(), path_valid());
    let none = Seq::<u8>::empty();
    if request_fits(m) {
        let e = enc_request(m);
        match m {
            Request::Resolve(ps) => {
                assert(e.skip(1) =~= enc_list(ps, path_enc()) + none);
            },
            Request::Publish(ps) => {
                assert(e.skip(1) =~= enc_list(ps, path_enc()) + none);
            },
            Request::Unpublish(ps) => {
                assert(e.skip(1) =~= enc_list(ps, path_enc()) + none);
            },
            Request::List(p) => {
                assert(e.skip(1) =~= enc_bytes(p) + none);
            },
            Request::Clear => {},
        }
    }
    if parse_request(b) == Some(m) {
        assert(b =~= seq![b[0]] + b.skip(1));
        if b[0] == 0 || b[0] == 2 || b[0] == 3 {
            let (ps, rest) = parse_list(b.skip(1), path_parse())->0;
            assert(rest =~= none);
            assert(b.skip(1) =~= enc_list(ps, path_enc()));
        } else if b[0] == 1 {
            let (p, rest) = parse_bytes(b.skip(1))->0;
            assert(rest =~= none);
            assert(b.skip(1) =~= enc_bytes(p));
        } else {
            assert(b =~= seq![4u8]);
        }
    }
}

/// The parser of answers takes exactly the encodings of the answers that
/// the format can hold.
pub proof fn lemma_response(b: Seq<u8>, m: Response)
    ensures
        response_fits(m) ==> parse_response(enc_response(m)) == Some(m),
        parse_response(b) == Some(m) ==> b == enc_response(m) && response_fits(m),
{
    lemma_bytes();
    lemma_path();
    lemma_list(path_enc(), path_parse(), path_valid());
    lemma_endpoints();
    lemma_list(endpoints_enc(), endpoints_parse(), endpoints_valid());
    let none = Seq::<u8>::empty();
    if response_fits(m) {
        let e = enc_response(m);
        match m {
            Response::Resolved(ls) => {
                assert(e.skip(1) =~= enc_list(ls, endpoints_enc()) + none);
            },
            Response::List(ps) => {
                assert(e.skip(1) =~= enc_list(ps, path_enc()) + none);
            },
            Response::Error(s) => {
                assert(e.skip(1) =~= enc_bytes(encode_utf8(s)) + none);
                encode_utf8_valid_utf8(s);
                encode_utf8_decode_utf8(s);
            },
            _ => {},
        }
    }
    if parse_response(b) == Some(m) {
        assert(b =~= seq![b[0]] + b.skip(1));
        if b[0] == 0 {
            let (ls, rest) = parse_list(b.skip(1), endpoints_parse())->0;
            assert(rest =~= none);
            assert(b.skip(1) =~= enc_list(ls, endpoints_enc()));
        } else if b[0] == 1 {
            let (ps, rest) = parse_list(b.skip(1), path_parse())->0;
            assert(rest =~= none);
            assert(b.skip(1) =~= enc_list(ps, path_enc()));
        } else if b[0] == 4 {
            let (text, rest) = parse_bytes(b.skip(1))->0;
            assert(rest =~= none);
            decode_utf8_encode_utf8(text);
            assert(b.skip(1) =~= enc_bytes(text));
        } else if b[0] == 2 {
            assert(b =~= seq![2u8]);
        } else {
            assert(b =~= seq![3u8]);
        }
    }
}

/// Two requests with the same bytes are the same request.
pub proof fn lemma_request_injective(m1: Request, m2: Request)
    requires
        request_fits(m1),
        request_fits(m2),
        enc_request(m1) == enc_request(m2),
    ensures
        m1 == m2,
{
    lemma_request(Seq::empty(), m1);
    lemma_request(Seq::empty(), m2);
}

/// Two answers with the same bytes are the same answer.
pub proof fn lemma_response_injective(m1: Response, m2: Response)
    requires
        response_fits(m1),
        response_fits(m2),
        enc_response(m1) == enc_response(m2),
    ensures
        m1 == m2,
{
    lemma_response(Seq::empty(), m1);
    lemma_response(Seq::empty(), m2);
}

/// `String::from_utf8` of the standard library: the text that the bytes
/// encode, when they are valid UTF-8, and nothing when they are not.
#[verifier::external_body]
fn string_from_utf8(bytes: Vec<u8>) -> (r: Option<String>)
    ensures
        r is Some == valid_utf8(bytes@),
        r matches Some(s) ==> s@ == decode_utf8(bytes@),
{
    String::from_utf8(bytes).ok()
}

/// The bytes of a client's hello.
pub fn encode_client_hello(h: &ClientHello) -> (out: Vec<u8>)
    ensures
        out@ == enc_client_hello(*h),
{
    let mut out: Vec<u8> = Vec::new();
    match h {
        ClientHello::ReadOnly => {
            out.push(0u8);
            proof {
                assert(out@ =~= enc_client_hello(*h));
            }
        },
        ClientHello::ReadWrite { ttl, write_addr } => {
            out.push(1u8);
            put_u64(&mut out, *ttl);
            put_endpoint(&mut out, write_addr);
            proof {
                assert(out@ =~= enc_client_hello(*h));
            }
        },
    }
    out
}

/// The hello whose encoding `bytes` is; nothing when `bytes` is the
/// encoding of no hello.
pub fn decode_client_hello(bytes: &[u8]) -> (r: Option<ClientHello>)
    ensures
        forall|h: ClientHello| r == Some(h) <==> bytes@ == enc_client_hello(h),
{
    let r = read_client_hello(bytes);
    proof {
        assert forall|h: ClientHello| r == Some(h) <==> bytes@ == enc_client_hello(h) by {
            lemma_client_hello(bytes@, h);
        }
    }
    r
}

fn read_client_hello(bytes: &[u8]) -> (r: Option<ClientHello>)
    ensures
        r == parse_client_hello(bytes@),
{
    if bytes.len() == 0 {
        return None;
    }
    if bytes[0] == 0 {
        if bytes.len() == 1 {
            Some(ClientHello::ReadOnly)
        } else {
            None
        }
    } else if bytes[0] == 1 {
        match get_u64(bytes, 1) {
            None => None,
            Some((ttl, p)) => match get_endpoint(bytes, p) {
                None => None,
                Some((write_addr, q)) => {
                    if q == bytes.len() {
                        Some(ClientHello::ReadWrite { ttl, write_addr })
                    } else {
                        None
                    }
                },
            },
        }
    } else {
        None
    }
}

/// The bytes of the server's hello.
pub fn encode_server_hello(h: &ServerHello) -> (out: Vec<u8>)
    ensures
        out@ == enc_server_hello(*h),
{
    let mut out: Vec<u8> = Vec::new();
    out.push(if h.ttl_expired { 1u8 } else { 0u8 });
    proof {
        assert(out@ =~= enc_server_hello(*h));
    }
    out
}

/// The server's hello whose encoding `bytes` is; nothing when `bytes` is
/// the encoding of none.
pub fn decode_server_hello(bytes: &[u8]) -> (r: Option<ServerHello>)
    ensures
        forall|h: ServerHello| r == Some(h) <==> bytes@ == enc_server_hello(h),
{
    let r = if bytes.len() == 1 && bytes[0] == 0 {
        Some(ServerHello { ttl_expired: false })
    } else if bytes.len() == 1 && bytes[0] == 1 {
        Some(ServerHello { ttl_expired: true })
    } else {
        None
    };
    proof {
        assert forall|h: ServerHello| r == Some(h) <==> bytes@ == enc_server_hello(h) by {
            if bytes@.len() == 1 {
                assert(bytes@ =~= seq![bytes@[0]]);
            }
            assert(enc_server_hello(h).len() == 1);
            assert(enc_server_hello(h)[0] == if h.ttl_expired { 1u8 } else { 0u8 });
        }
    }
    r
}

/// The bytes of a request; nothing when the request is too large for the
/// format.
pub fn encode_request(m: &ToResolver) -> (r: Option<Vec<u8>>)
    ensures
        r is Some == request_fits(m@),
        r matches Some(out) ==> out@ == enc_request(m@),
{
    let mut out: Vec<u8> = Vec::new();
    let ok = match m {
        ToResolver::Resolve(ps) => {
            out.push(0u8);
            put_paths(&mut out, ps)
        },
        ToResolver::List(p) => {
            out.push(1u8);
            put_bytes(&mut out, p.as_bytes())
        },
        ToResolver::Publish(ps) => {
            out.push(2u8);
            put_paths(&mut out, ps)
        },
        ToResolver::Unpublish(ps) => {
            out.push(3u8);
            put_paths(&mut out, ps)
        },
        ToResolver::Clear => {
            out.push(4u8);
            true
        },
    };
    if ok {
        proof {
            assert(out@ =~= enc_request(m@));
        }
        Some(out)
    } else {
        None
    }
}

fn read_request(bytes: &[u8]) -> (r: Option<ToResolver>)
    ensures
        match parse_request(bytes@) {
            Some(m) => r matches Some(x) && x@ == m,
            None => r.is_none(),
        },
{
    if bytes.len() == 0 {
        return None;
    }
    let tag = bytes[0];
    if tag == 0 || tag == 2 || tag == 3 {
        match get_paths(bytes, 1) {
            None => None,
            Some((ps, q)) => {
                if q != bytes.len() {
                    None
                } else if tag == 0 {
                    Some(ToResolver::Resolve(ps))
                } else if tag == 2 {
                    Some(ToResolver::Publish(ps))
                } else {
                    Some(ToResolver::Unpublish(ps))
                }
            },
        }
    } else if tag == 1 {
        match get_bytes(bytes, 1) {
            None => None,
            Some((p, q)) => {
                if q != bytes.len() {
                    None
                } else {
                    Some(ToResolver::List(crate::path::Path::from_bytes(p)))
                }
            },
        }
    } else if tag == 4 && bytes.len() == 1 {
        Some(ToResolver::Clear)
    } else {
        None
    }
}

/// The request whose encoding `bytes` is; nothing when `bytes` is the
/// encoding of no request.
pub fn decode_request(bytes: &[u8]) -> (r: Option<ToResolver>)
    ensures
        r matches Some(m) ==> request_fits(m@) && bytes@ == enc_request(m@),
        r is None ==> forall|m: Request| request_fits(m) ==> bytes@ != enc_request(m),
{
    let r = read_request(bytes);
    proof {
        if r is Some {
            lemma_request(bytes@, r->0@);
        }
        assert forall|m: Request| r is None && request_fits(m) implies bytes@ != enc_request(
            m,
        ) by {
            lemma_request(bytes@, m);
        }
    }
    r
}

/// The bytes of an answer; nothing when the answer is too large for the
/// format.
pub fn encode_response(m: &FromResolver) -> (r: Option<Vec<u8>>)
    ensures
        r is Some == response_fits(m@),
        r matches Some(out) ==> out@ == enc_response(m@),
{
    let mut out: Vec<u8> = Vec::new();
    let ok = match m {
        FromResolver::Resolved(ls) => {
            out.push(0u8);
            put_endpoint_lists(&mut out, ls)
        },
        FromResolver::List(ps) => {
            out.push(1u8);
            put_paths(&mut out, ps)
        },
        FromResolver::Published => {
            out.push(2u8);
            true
        },
        FromResolver::Unpublished => {
            out.push(3u8);
            true
        },
        FromResolver::Error(s) => {
            out.push(4u8);
            put_bytes(&mut out, s.as_str().as_bytes())
        },
    };
    if ok {
        proof {
            assert(out@ =~= enc_response(m@));
        }
        Some(out)
    } else {
        None
    }
}

fn read_response(bytes: &[u8]) -> (r: Option<FromResolver>)
    ensures
        match parse_response(bytes@) {
            Some(m) => r matches Some(x) && x@ == m,
            None => r.is_none(),
        },
{
    if bytes.len() == 0 {
        return None;
    }
    let tag = bytes[0];
    if tag == 0 {
        match get_endpoint_lists(bytes, 1) {
            None => None,
            Some((ls, q)) => {
                if q != bytes.len() {
                    None
                } else {
                    Some(FromResolver::Resolved(ls))
                }
            },
        }
    } else if tag == 1 {
        match get_paths(bytes, 1) {
            None => None,
            Some((ps, q)) => {
                if q != bytes.len() {
                    None
                } else {
                    Some(FromResolver::List(ps))
                }
            },
        }
    } else if tag == 2 && bytes.len() == 1 {
        Some(FromResolver::Published)
    } else if tag == 3 && bytes.len() == 1 {
        Some(FromResolver::Unpublished)
    } else if tag == 4 {
        match get_bytes(bytes, 1) {
            None => None,
            Some((text, q)) => {
                if q != bytes.len() {
                    None
                } else {
                    match string_from_utf8(text) {
                        Some(s) => Some(FromResolver::Error(s)),
                        None => None,
                    }
                }
            },
        }
    } else {
        None
    }
}

/// The answer whose encoding `bytes` is; nothing when `bytes` is the
/// encoding of no answer.
pub fn decode_response(bytes: &[u8]) -> (r: Option<FromResolver>)
    ensures
        r matches Some(m) ==> response_fits(m@) && bytes@ == enc_response(m@),
        r is None ==> forall|m: Response| response_fits(m) ==> bytes@ != enc_response(m),
{
    let r = read_response(bytes);
    proof {
        if r is Some {
            lemma_response(bytes@, r->0@);
        }
        assert forall|m: Response| r is None && response_fits(m) implies bytes@ != enc_response(
            m,
        ) by {
            lemma_response(bytes@, m);
        }
    }
    r
}

/// A frame: the length of the message, then the message.
pub open spec fn enc_frame(payload: Seq<u8>) -> Seq<u8> {
    enc_bytes(payload)
}

/// What stands at the front of a buffer that is filled from a stream.
#[derive(Debug, PartialEq, Eq)]
pub enum Framed {
    /// Less than a whole frame: more has to be read.
    Incomplete,
    /// The frame that begins here says that it is longer than a frame may
    /// be: the stream is of no use.
    TooLarge,
    /// A whole frame, with the message `payload`; it takes the first
    /// `consumed` bytes of the buffer.
    Frame { payload: Vec<u8>, consumed: usize },
}

/// The view of `Framed`.
pub enum FramedView {
    Incomplete,
    TooLarge,
    Frame { payload: Seq<u8>, consumed: int },
}

impl View for Framed {
    type V = FramedView;

    open spec fn view(&self) -> FramedView {
        match self {
            Framed::Incomplete => FramedView::Incomplete,
            Framed::TooLarge => FramedView::TooLarge,
            Framed::Frame { payload, consumed } => FramedView::Frame {
                payload: payload@,
                consumed: *consumed as int,
            },
        }
    }
}

/// What stands at the front of `buf`.
pub open spec fn frame_at(buf: Seq<u8>) -> FramedView {
    match parse_u32(buf) {
        None => FramedView::Incomplete,
        Some((n, rest)) => if n > MAX_FRAME {
            FramedView::TooLarge
        } else if rest.len() < n {
            FramedView::Incomplete
        } else {
            FramedView::Frame { payload: rest.take(n as int), consumed: 4 + n }
        },
    }
}

/// A frame that is followed by anything is found whole, and what is found
/// whole is a frame.
pub proof fn lemma_frame(payload: Seq<u8>, rest: Seq<u8>, buf: Seq<u8>)
    ensures
        payload.len() <= MAX_FRAME ==> frame_at(enc_frame(payload) + rest) == (FramedView::Frame {
            payload,
            consumed: 4 + payload.len() as int,
        }),
        frame_at(buf) matches FramedView::Frame { payload: p, consumed } ==> p.len() <= MAX_FRAME
            && consumed == 4 + p.len() && consumed <= buf.len() && buf.take(consumed) == enc_frame(
            p,
        ),
{
    lemma_ints();
    lemma_bytes();
    if payload.len() <= MAX_FRAME {
        let b = enc_frame(payload) + rest;
        assert(b =~= enc_u32(payload.len() as u32) + (payload + rest));
        assert((payload + rest).take(payload.len() as int) =~= payload);
    }
    if let FramedView::Frame { payload: p, consumed } = frame_at(buf) {
        let (n, tail) = parse_u32(buf)->0;
        assert(buf.take(consumed) =~= enc_u32(n) + tail.take(n as int));
    }
}

/// The frame that carries `payload`; nothing when `payload` is longer than
/// a frame may be.
pub fn encode_frame(payload: &[u8]) -> (r: Option<Vec<u8>>)
    ensures
        r is Some <==> payload@.len() <= MAX_FRAME,
        r matches Some(out) ==> out@ == enc_frame(payload@),
{
    if payload.len() > MAX_FRAME {
        return None;
    }
    let mut out: Vec<u8> = Vec::new();
    let ok = put_bytes(&mut out, payload);
    proof {
        assert(out@ =~= enc_frame(payload@));
    }
    Some(out)
}

/// Looks for a whole frame at the front of `buf`.
pub fn decode_frame(buf: &[u8]) -> (r: Framed)
    ensures
        r@ == frame_at(buf@),
{
    proof {
        assert(buf@.skip(0) =~= buf@);
    }
    match get_u32(buf, 0) {
        None => Framed::Incomplete,
        Some((n, start)) => {
            if n as usize > MAX_FRAME {
                Framed::TooLarge
            } else if buf.len() - start < n as usize {
                proof {
                    assert(buf@.skip(4).len() == buf@.len() - 4);
                }
                Framed::Incomplete
            } else {
                let end = start + n as usize;
                let payload = slice_to_vec(slice_subrange(buf, start, end));
                proof {
                    assert(buf@.skip(4).take(n as int) =~= buf@.subrange(4, end as int));
                }
                Framed::Frame { payload, consumed: end }
            }
        },
    }
}

} // verus!
