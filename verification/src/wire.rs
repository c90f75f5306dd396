//! The building blocks of the wire format: integers, byte strings, lists,
//! paths and endpoints.
//!
//! Integers are little-endian. A byte string is its length as a 32-bit
//! integer, then its bytes. A list is the number of its items as a 32-bit
//! integer, then the items. An endpoint is a tag (4 or 6), the address, and
//! the port.
//!
//! For each kind there is an encoding, a spec function from the value to its
//! bytes, and a parser, a spec function from bytes to the value that stands
//! at their front and the bytes behind it. The lemmas say that the parser
//! takes exactly the encodings.

use vstd::prelude::*;
use vstd::bytes::{
    lemma_auto_spec_u16_to_from_le_bytes, lemma_auto_spec_u32_to_from_le_bytes,
    lemma_auto_spec_u64_to_from_le_bytes, spec_u16_from_le_bytes, spec_u16_to_le_bytes,
    spec_u32_from_le_bytes, spec_u32_to_le_bytes, spec_u64_from_le_bytes, spec_u64_to_le_bytes,
    u16_from_le_bytes, u16_to_le_bytes, u32_from_le_bytes, u32_to_le_bytes, u64_from_le_bytes,
    u64_to_le_bytes,
};
use vstd::slice::{slice_subrange, slice_to_vec};
use crate::endpoint::{Endpoint, Ip};
use crate::path::Path;
use crate::pathset::path_views;
use crate::protocol::endpoint_views;

verus! {

/// The largest length and the largest count that the format can say.
pub const MAX_LEN: usize = 0xffff_ffff;

/// The two bytes of `x`, the least significant first.
pub open spec fn enc_u16(x: u16) -> Seq<u8> {
    spec_u16_to_le_bytes(x)
}

/// The four bytes of `x`, the least significant first.
pub open spec fn enc_u32(x: u32) -> Seq<u8> {
    spec_u32_to_le_bytes(x)
}

/// The eight bytes of `x`, the least significant first.
pub open spec fn enc_u64(x: u64) -> Seq<u8> {
    spec_u64_to_le_bytes(x)
}

/// The 16-bit integer at the front of `b`, and what is behind it.
pub open spec fn parse_u16(b: Seq<u8>) -> Option<(u16, Seq<u8>)> {
    if b.len() >= 2 {
        Some((spec_u16_from_le_bytes(b.take(2)), b.skip(2)))
    } else {
        None
    }
}

/// The 32-bit integer at the front of `b`, and what is behind it.
pub open spec fn parse_u32(b: Seq<u8>) -> Option<(u32, Seq<u8>)> {
    if b.len() >= 4 {
        Some((spec_u32_from_le_bytes(b.take(4)), b.skip(4)))
    } else {
        None
    }
}

/// The 64-bit integer at the front of `b`, and what is behind it.
pub open spec fn parse_u64(b: Seq<u8>) -> Option<(u64, Seq<u8>)> {
    if b.len() >= 8 {
        Some((spec_u64_from_le_bytes(b.take(8)), b.skip(8)))
    } else {
        None
    }
}

/// The parsers of integers take exactly their encodings.
pub proof fn lemma_ints()
    ensures
        forall|x: u16| (#[trigger] enc_u16(x)).len() == 2,
        forall|x: u32| (#[trigger] enc_u32(x)).len() == 4,
        forall|x: u64| (#[trigger] enc_u64(x)).len() == 8,
        forall|x: u16, r: Seq<u8>| #[trigger] parse_u16(enc_u16(x) + r) == Some((x, r)),
        forall|x: u32, r: Seq<u8>| #[trigger] parse_u32(enc_u32(x) + r) == Some((x, r)),
        forall|x: u64, r: Seq<u8>| #[trigger] parse_u64(enc_u64(x) + r) == Some((x, r)),
        forall|b: Seq<u8>| #[trigger]
            parse_u16(b) matches Some((x, r)) ==> b == enc_u16(x) + r,
        forall|b: Seq<u8>| #[trigger]
            parse_u32(b) matches Some((x, r)) ==> b == enc_u32(x) + r,
        forall|b: Seq<u8>| #[trigger]
            parse_u64(b) matches Some((x, r)) ==> b == enc_u64(x) + r,
{
    lemma_auto_spec_u16_to_from_le_bytes();
    lemma_auto_spec_u32_to_from_le_bytes();
    lemma_auto_spec_u64_to_from_le_bytes();
    assert forall|x: u16, r: Seq<u8>| #[trigger] parse_u16(enc_u16(x) + r) == Some((x, r)) by {
        let b = enc_u16(x) + r;
        assert(b.take(2) =~= enc_u16(x));
        assert(b.skip(2) =~= r);
    }
    assert forall|x: u32, r: Seq<u8>| #[trigger] parse_u32(enc_u32(x) + r) == Some((x, r)) by {
        let b = enc_u32(x) + r;
        assert(b.take(4) =~= enc_u32(x));
        assert(b.skip(4) =~= r);
    }
    assert forall|x: u64, r: Seq<u8>| #[trigger] parse_u64(enc_u64(x) + r) == Some((x, r)) by {
        let b = enc_u64(x) + r;
        assert(b.take(8) =~= enc_u64(x));
        assert(b.skip(8) =~= r);
    }
    assert forall|b: Seq<u8>| #[trigger]
        parse_u16(b) matches Some((x, r)) ==> b == enc_u16(x) + r by {
        if b.len() >= 2 {
            assert(b =~= b.take(2) + b.skip(2));
        }
    }
    assert forall|b: Seq<u8>| #[trigger]
        parse_u32(b) matches Some((x, r)) ==> b == enc_u32(x) + r by {
        if b.len() >= 4 {
            assert(b =~= b.take(4) + b.skip(4));
        }
    }
    assert forall|b: Seq<u8>| #[trigger]
        parse_u64(b) matches Some((x, r)) ==> b == enc_u64(x) + r by {
        if b.len() >= 8 {
            assert(b =~= b.take(8) + b.skip(8));
        }
    }
}

/// A byte string: its length, then its bytes.
pub open spec fn enc_bytes(s: Seq<u8>) -> Seq<u8> {
    enc_u32(s.len() as u32) + s
}

/// The byte string at the front of `b`, and what is behind it.
pub open spec fn parse_bytes(b: Seq<u8>) -> Option<(Seq<u8>, Seq<u8>)> {
    match parse_u32(b) {
        Some((n, rest)) => if rest.len() >= n {
            Some((rest.take(n as int), rest.skip(n as int)))
        } else {
            None
        },
        None => None,
    }
}

/// A byte string that the format can hold.
pub open spec fn fits(s: Seq<u8>) -> bool {
    s.len() <= MAX_LEN
}

/// The parser of byte strings takes exactly their encodings.
pub proof fn lemma_bytes()
    ensures
        forall|s: Seq<u8>, r: Seq<u8>|
            fits(s) ==> #[trigger] parse_bytes(enc_bytes(s) + r) == Some((s, r)),
        forall|b: Seq<u8>| #[trigger]
            parse_bytes(b) matches Some((s, r)) ==> b == enc_bytes(s) + r && fits(s),
{
    lemma_ints();
    assert forall|s: Seq<u8>, r: Seq<u8>| fits(s) implies #[trigger] parse_bytes(enc_bytes(s) + r)
        == Some((s, r)) by {
        let b = enc_bytes(s) + r;
        assert(b =~= enc_u32(s.len() as u32) + (s + r));
        assert((s + r).take(s.len() as int) =~= s);
        assert((s + r).skip(s.len() as int) =~= r);
    }
    assert forall|b: Seq<u8>| #[trigger]
        parse_bytes(b) matches Some((s, r)) ==> b == enc_bytes(s) + r && fits(s) by {
        if parse_bytes(b) is Some {
            let (n, rest) = parse_u32(b)->0;
            assert(rest =~= rest.take(n as int) + rest.skip(n as int));
            assert(b =~= enc_u32(n) + rest.take(n as int) + rest.skip(n as int));
        }
    }
}

/// The items of a list, one behind the other.
pub open spec fn enc_items<T>(xs: Seq<T>, enc: spec_fn(T) -> Seq<u8>) -> Seq<u8>
    decreases xs.len(),
{
    if xs.len() == 0 {
        Seq::empty()
    } else {
        enc(xs[0]) + enc_items(xs.drop_first(), enc)
    }
}

/// The `n` items that stand at the front of `b`.
pub open spec fn parse_items<T>(
    b: Seq<u8>,
    n: nat,
    parse: spec_fn(Seq<u8>) -> Option<(T, Seq<u8>)>,
) -> Option<(Seq<T>, Seq<u8>)>
    decreases n,
{
    if n == 0 {
        Some((Seq::empty(), b))
    } else {
        match parse(b) {
            None => None,
            Some((x, rest)) => match parse_items(rest, (n - 1) as nat, parse) {
                None => None,
                Some((xs, rest2)) => Some((seq![x] + xs, rest2)),
            },
        }
    }
}

/// A list: the number of its items, then the items.
pub open spec fn enc_list<T>(xs: Seq<T>, enc: spec_fn(T) -> Seq<u8>) -> Seq<u8> {
    enc_u32(xs.len() as u32) + enc_items(xs, enc)
}

/// The list at the front of `b`, and what is behind it.
pub open spec fn parse_list<T>(
    b: Seq<u8>,
    parse: spec_fn(Seq<u8>) -> Option<(T, Seq<u8>)>,
) -> Option<(Seq<T>, Seq<u8>)> {
    match parse_u32(b) {
        Some((n, rest)) => parse_items(rest, n as nat, parse),
        None => None,
    }
}

/// A parser takes every encoding of a valid value, and gives the value
/// back.
pub open spec fn complete<T>(
    enc: spec_fn(T) -> Seq<u8>,
    parse: spec_fn(Seq<u8>) -> Option<(T, Seq<u8>)>,
    valid: spec_fn(T) -> bool,
) -> bool {
    forall|x: T, r: Seq<u8>| valid(x) ==> #[trigger] parse(enc(x) + r) == Some((x, r))
}

/// A parser takes nothing but encodings of valid values.
pub open spec fn sound<T>(
    enc: spec_fn(T) -> Seq<u8>,
    parse: spec_fn(Seq<u8>) -> Option<(T, Seq<u8>)>,
    valid: spec_fn(T) -> bool,
) -> bool {
    forall|b: Seq<u8>| #[trigger] parse(b) matches Some((x, r)) ==> b == enc(x) + r && valid(x)
}

/// Every item is valid, and the list is not too long for the format.
pub open spec fn list_valid<T>(xs: Seq<T>, valid: spec_fn(T) -> bool) -> bool {
    xs.len() <= MAX_LEN && forall|i: int| 0 <= i < xs.len() ==> valid(#[trigger] xs[i])
}

/// The items of a list with one more item behind.
pub proof fn lemma_items_push<T>(xs: Seq<T>, x: T, enc: spec_fn(T) -> Seq<u8>)
    ensures
        enc_items(xs.push(x), enc) == enc_items(xs, enc) + enc(x),
    decreases xs.len(),
{
    if xs.len() == 0 {
        assert(xs.push(x).drop_first() =~= Seq::<T>::empty());
        assert(enc_items(xs.push(x), enc) =~= enc(x) + enc_items(Seq::<T>::empty(), enc));
        assert(enc_items(xs.push(x), enc) =~= enc_items(xs, enc) + enc(x));
    } else {
        assert(xs.push(x).drop_first() =~= xs.drop_first().push(x));
        lemma_items_push(xs.drop_first(), x, enc);
        assert(enc_items(xs.push(x), enc) =~= enc_items(xs, enc) + enc(x));
    }
}

/// When the parser of the items is complete, so is that of their sequence.
pub proof fn lemma_items_complete<T>(
    xs: Seq<T>,
    r: Seq<u8>,
    enc: spec_fn(T) -> Seq<u8>,
    parse: spec_fn(Seq<u8>) -> Option<(T, Seq<u8>)>,
    valid: spec_fn(T) -> bool,
)
    requires
        complete(enc, parse, valid),
        forall|i: int| 0 <= i < xs.len() ==> valid(#[trigger] xs[i]),
    ensures
        parse_items(enc_items(xs, enc) + r, xs.len(), parse) == Some((xs, r)),
    decreases xs.len(),
{
    if xs.len() == 0 {
        assert(enc_items(xs, enc) + r =~= r);
        assert(xs =~= Seq::<T>::empty());
    } else {
        let tail = xs.drop_first();
        assert forall|i: int| 0 <= i < tail.len() implies valid(#[trigger] tail[i]) by {
            assert(tail[i] == xs[i + 1]);
        }
        lemma_items_complete(tail, r, enc, parse, valid);
        assert(enc_items(xs, enc) + r =~= enc(xs[0]) + (enc_items(tail, enc) + r));
        assert(valid(xs[0]));
        assert(parse(enc(xs[0]) + (enc_items(tail, enc) + r)) == Some(
            (xs[0], enc_items(tail, enc) + r),
        ));
        assert(seq![xs[0]] + tail =~= xs);
    }
}

/// When the parser of the items is sound, so is that of their sequence.
pub proof fn lemma_items_sound<T>(
    b: Seq<u8>,
    n: nat,
    enc: spec_fn(T) -> Seq<u8>,
    parse: spec_fn(Seq<u8>) -> Option<(T, Seq<u8>)>,
    valid: spec_fn(T) -> bool,
)
    requires
        sound(enc, parse, valid),
    ensures
        parse_items(b, n, parse) matches Some((xs, r)) ==> xs.len() == n && b == enc_items(xs, enc)
            + r && forall|i: int| 0 <= i < xs.len() ==> valid(#[trigger] xs[i]),
    decreases n,
{
    if n == 0 {
        assert(b =~= enc_items(Seq::<T>::empty(), enc) + b);
    } else {
        if let Some((x, rest)) = parse(b) {
            lemma_items_sound(rest, (n - 1) as nat, enc, parse, valid);
            if let Some((tail, r)) = parse_items(rest, (n - 1) as nat, parse) {
                let xs = seq![x] + tail;
                assert(xs.drop_first() =~= tail);
                assert(b =~= enc_items(xs, enc) + r);
                assert forall|i: int| 0 <= i < xs.len() implies valid(#[trigger] xs[i]) by {
                    if i > 0 {
                        assert(xs[i] == tail[i - 1]);
                    }
                }
            }
        }
    }
}

/// When the parser of the items takes exactly their encodings, the parser
/// of lists takes exactly the encodings of lists.
pub proof fn lemma_list<T>(
    enc: spec_fn(T) -> Seq<u8>,
    parse: spec_fn(Seq<u8>) -> Option<(T, Seq<u8>)>,
    valid: spec_fn(T) -> bool,
)
    requires
        complete(enc, parse, valid),
        sound(enc, parse, valid),
    ensures
        forall|xs: Seq<T>, r: Seq<u8>|
            list_valid(xs, valid) ==> #[trigger] parse_list(enc_list(xs, enc) + r, parse) == Some(
                (xs, r),
            ),
        forall|b: Seq<u8>| #[trigger]
            parse_list(b, parse) matches Some((xs, r)) ==> b == enc_list(xs, enc) + r
                && list_valid(xs, valid),
{
    lemma_ints();
    assert forall|xs: Seq<T>, r: Seq<u8>| list_valid(xs, valid) implies #[trigger] parse_list(
        enc_list(xs, enc) + r,
        parse,
    ) == Some((xs, r)) by {
        let b = enc_list(xs, enc) + r;
        assert(b =~= enc_u32(xs.len() as u32) + (enc_items(xs, enc) + r));
        lemma_items_complete(xs, r, enc, parse, valid);
    }
    assert forall|b: Seq<u8>| #[trigger]
        parse_list(b, parse) matches Some((xs, r)) ==> b == enc_list(xs, enc) + r && list_valid(
            xs,
            valid,
        ) by {
        if parse_list(b, parse) is Some {
            let (n, rest) = parse_u32(b)->0;
            lemma_items_sound(rest, n as nat, enc, parse, valid);
            let (xs, r) = parse_items(rest, n as nat, parse)->0;
            assert(b =~= enc_u32(n) + enc_items(xs, enc) + r);
        }
    }
}

/// The encoding of a path: its bytes as a byte string.
pub open spec fn path_enc() -> spec_fn(Seq<u8>) -> Seq<u8> {
    |p: Seq<u8>| enc_bytes(p)
}

/// The parser of a path.
pub open spec fn path_parse() -> spec_fn(Seq<u8>) -> Option<(Seq<u8>, Seq<u8>)> {
    |b: Seq<u8>| parse_bytes(b)
}

/// A path that the format can hold.
pub open spec fn path_valid() -> spec_fn(Seq<u8>) -> bool {
    |p: Seq<u8>| fits(p)
}

/// The encoding of an endpoint: the tag 4, four octets and the port; or
/// the tag 6, eight segments and the port.
pub open spec fn enc_endpoint(e: Endpoint) -> Seq<u8> {
    match e.ip {
        Ip::V4(a, b, c, d) => seq![4u8, a, b, c, d] + enc_u16(e.port),
        Ip::V6(g0, g1, g2, g3, g4, g5, g6, g7) => seq![6u8] + enc_u16(g0) + enc_u16(g1) + enc_u16(
            g2,
        ) + enc_u16(g3) + enc_u16(g4) + enc_u16(g5) + enc_u16(g6) + enc_u16(g7) + enc_u16(e.port),
    }
}

/// The 16-bit integer at index `i` of `b`.
pub open spec fn u16_at(b: Seq<u8>, i: int) -> u16 {
    spec_u16_from_le_bytes(b.subrange(i, i + 2))
}

/// The endpoint at the front of `b`, and what is behind it.
pub open spec fn parse_endpoint(b: Seq<u8>) -> Option<(Endpoint, Seq<u8>)> {
    if b.len() >= 7 && b[0] == 4 {
        Some((Endpoint { ip: Ip::V4(b[1], b[2], b[3], b[4]), port: u16_at(b, 5) }, b.skip(7)))
    } else if b.len() >= 19 && b[0] == 6 {
        Some(
            (
                Endpoint {
                    ip: Ip::V6(
                        u16_at(b, 1),
                        u16_at(b, 3),
                        u16_at(b, 5),
                        u16_at(b, 7),
                        u16_at(b, 9),
                        u16_at(b, 11),
                        u16_at(b, 13),
                        u16_at(b, 15),
                    ),
                    port: u16_at(b, 17),
                },
                b.skip(19),
            ),
        )
    } else {
        None
    }
}

/// The encoding of an endpoint, as a function.
pub open spec fn endpoint_enc() -> spec_fn(Endpoint) -> Seq<u8> {
    |e: Endpoint| enc_endpoint(e)
}

/// The parser of an endpoint, as a function.
pub open spec fn endpoint_parse() -> spec_fn(Seq<u8>) -> Option<(Endpoint, Seq<u8>)> {
    |b: Seq<u8>| parse_endpoint(b)
}

/// Every endpoint can be encoded.
pub open spec fn endpoint_valid() -> spec_fn(Endpoint) -> bool {
    |e: Endpoint| true
}

/// The parser of endpoints takes exactly their encodings.
pub proof fn lemma_endpoint()
    ensures
        complete(endpoint_enc(), endpoint_parse(), endpoint_valid()),
        sound(endpoint_enc(), endpoint_parse(), endpoint_valid()),
        forall|e: Endpoint, r: Seq<u8>| #[trigger]
            parse_endpoint(enc_endpoint(e) + r) == Some((e, r)),
        forall|b: Seq<u8>| #[trigger]
            parse_endpoint(b) matches Some((e, r)) ==> b == enc_endpoint(e) + r,
{
    lemma_auto_spec_u16_to_from_le_bytes();
    assert forall|e: Endpoint, r: Seq<u8>| #[trigger]
        parse_endpoint(enc_endpoint(e) + r) == Some((e, r)) by {
        let b = enc_endpoint(e) + r;
        match e.ip {
            Ip::V4(a, bb, c, d) => {
                assert(b.subrange(5, 7) =~= enc_u16(e.port));
                assert(b.skip(7) =~= r);
            },
            Ip::V6(g0, g1, g2, g3, g4, g5, g6, g7) => {
                assert(b.subrange(1, 3) =~= enc_u16(g0));
                assert(b.subrange(3, 5) =~= enc_u16(g1));
                assert(b.subrange(5, 7) =~= enc_u16(g2));
                assert(b.subrange(7, 9) =~= enc_u16(g3));
                assert(b.subrange(9, 11) =~= enc_u16(g4));
                assert(b.subrange(11, 13) =~= enc_u16(g5));
                assert(b.subrange(13, 15) =~= enc_u16(g6));
                assert(b.subrange(15, 17) =~= enc_u16(g7));
                assert(b.subrange(17, 19) =~= enc_u16(e.port));
                assert(b.skip(19) =~= r);
            },
        }
    }
    assert forall|b: Seq<u8>| #[trigger]
        parse_endpoint(b) matches Some((e, r)) ==> b == enc_endpoint(e) + r by {
        if parse_endpoint(b) is Some {
            let (e, r) = parse_endpoint(b)->0;
            if b[0] == 4 {
                assert(enc_u16(e.port) == b.subrange(5, 7));
                assert(b =~= enc_endpoint(e) + r);
            } else {
                assert(b =~= seq![6u8] + b.subrange(1, 3) + b.subrange(3, 5) + b.subrange(5, 7)
                    + b.subrange(7, 9) + b.subrange(9, 11) + b.subrange(11, 13) + b.subrange(
                    13,
                    15,
                ) + b.subrange(15, 17) + b.subrange(17, 19) + r);
            }
        }
    }
}

/// The parser of paths takes exactly their encodings.
pub proof fn lemma_path()
    ensures
        complete(path_enc(), path_parse(), path_valid()),
        sound(path_enc(), path_parse(), path_valid()),
{
    lemma_bytes();
}

/// The encoding of a list of endpoints.
pub open spec fn endpoints_enc() -> spec_fn(Seq<Endpoint>) -> Seq<u8> {
    |l: Seq<Endpoint>| enc_list(l, endpoint_enc())
}

/// The parser of a list of endpoints.
pub open spec fn endpoints_parse() -> spec_fn(Seq<u8>) -> Option<(Seq<Endpoint>, Seq<u8>)> {
    |b: Seq<u8>| parse_list(b, endpoint_parse())
}

/// A list of endpoints that the format can hold.
pub open spec fn endpoints_valid() -> spec_fn(Seq<Endpoint>) -> bool {
    |l: Seq<Endpoint>| list_valid(l, endpoint_valid())
}

/// The parser of lists of endpoints takes exactly their encodings.
pub proof fn lemma_endpoints()
    ensures
        complete(endpoints_enc(), endpoints_parse(), endpoints_valid()),
        sound(endpoints_enc(), endpoints_parse(), endpoints_valid()),
{
    lemma_endpoint();
    lemma_list(endpoint_enc(), endpoint_parse(), endpoint_valid());
}

/// Appends the encoding of `x`.
pub fn put_u16(out: &mut Vec<u8>, x: u16)
    ensures
        final(out)@ == old(out)@ + enc_u16(x),
{
    let mut b = u16_to_le_bytes(x);
    out.append(&mut b);
}

/// Appends the encoding of `x`.
pub fn put_u32(out: &mut Vec<u8>, x: u32)
    ensures
        final(out)@ == old(out)@ + enc_u32(x),
{
    let mut b = u32_to_le_bytes(x);
    out.append(&mut b);
}

/// Appends the encoding of `x`.
pub fn put_u64(out: &mut Vec<u8>, x: u64)
    ensures
        final(out)@ == old(out)@ + enc_u64(x),
{
    let mut b = u64_to_le_bytes(x);
    out.append(&mut b);
}

/// Appends the encoding of the byte string `s`. Appends nothing and says
/// `false` when it is too long for the format.
pub fn put_bytes(out: &mut Vec<u8>, s: &[u8]) -> (ok: bool)
    ensures
        ok == fits(s@),
        ok ==> final(out)@ == old(out)@ + enc_bytes(s@),
        !ok ==> final(out)@ == old(out)@,
{
    if s.len() > MAX_LEN {
        return false;
    }
    put_u32(out, s.len() as u32);
    let mut copy = slice_to_vec(s);
    out.append(&mut copy);
    proof {
        assert(out@ =~= old(out)@ + enc_bytes(s@));
    }
    true
}

/// Appends the encoding of `e`.
pub fn put_endpoint(out: &mut Vec<u8>, e: &Endpoint)
    ensures
        final(out)@ == old(out)@ + enc_endpoint(*e),
{
    match e.ip {
        Ip::V4(a, b, c, d) => {
            out.push(4u8);
            out.push(a);
            out.push(b);
            out.push(c);
            out.push(d);
            put_u16(out, e.port);
            proof {
                assert(out@ =~= old(out)@ + enc_endpoint(*e));
            }
        },
        Ip::V6(g0, g1, g2, g3, g4, g5, g6, g7) => {
            out.push(6u8);
            put_u16(out, g0);
            put_u16(out, g1);
            put_u16(out, g2);
            put_u16(out, g3);
            put_u16(out, g4);
            put_u16(out, g5);
            put_u16(out, g6);
            put_u16(out, g7);
            put_u16(out, e.port);
            proof {
                assert(out@ =~= old(out)@ + enc_endpoint(*e));
            }
        },
    }
}

/// Appends the encoding of the list `paths`. Appends nothing and says
/// `false` when the list or one of its paths is too long for the format.
pub fn put_paths(out: &mut Vec<u8>, paths: &Vec<Path>) -> (ok: bool)
    ensures
        ok == list_valid(path_views(paths@), path_valid()),
        ok ==> final(out)@ == old(out)@ + enc_list(path_views(paths@), path_enc()),
        !ok ==> final(out)@ == old(out)@,
{
    let ghost v = path_views(paths@);
    if paths.len() > MAX_LEN {
        return false;
    }
    let mark = out.len();
    put_u32(out, paths.len() as u32);
    let mut i: usize = 0;
    while i < paths.len()
        invariant
            i <= paths.len(),
            paths.len() <= MAX_LEN,
            v == path_views(paths@),
            forall|j: int| 0 <= j < i ==> fits(#[trigger] v[j]),
            mark == old(out)@.len(),
            out@ == old(out)@ + enc_u32(paths.len() as u32) + enc_items(
                v.take(i as int),
                path_enc(),
            ),
        decreases paths.len() - i,
    {
        proof {
            assert(v[i as int] == paths@[i as int]@);
            lemma_items_push(v.take(i as int), v[i as int], path_enc());
            assert(v.take(i as int).push(v[i as int]) =~= v.take(i + 1));
        }
        if !put_bytes(out, paths[i].as_bytes()) {
            out.truncate(mark);
            proof {
                assert(out@ =~= old(out)@);
            }
            return false;
        }
        proof {
            assert(out@ =~= old(out)@ + enc_u32(paths.len() as u32) + enc_items(
                v.take(i + 1),
                path_enc(),
            ));
        }
        i += 1;
    }
    proof {
        assert(v.take(v.len() as int) =~= v);
    }
    true
}

/// Appends the encoding of the list `eps`. Says `false` when the list is
/// too long for the format; nothing was appended then.
pub fn put_endpoints(out: &mut Vec<u8>, eps: &Vec<Endpoint>) -> (ok: bool)
    ensures
        ok == list_valid(eps@, endpoint_valid()),
        ok ==> final(out)@ == old(out)@ + enc_list(eps@, endpoint_enc()),
        !ok ==> final(out)@ == old(out)@,
{
    if eps.len() > MAX_LEN {
        return false;
    }
    put_u32(out, eps.len() as u32);
    let mut i: usize = 0;
    while i < eps.len()
        invariant
            i <= eps.len(),
            eps.len() <= MAX_LEN,
            out@ == old(out)@ + enc_u32(eps.len() as u32) + enc_items(
                eps@.take(i as int),
                endpoint_enc(),
            ),
        decreases eps.len() - i,
    {
        proof {
            lemma_items_push(eps@.take(i as int), eps@[i as int], endpoint_enc());
            assert(eps@.take(i as int).push(eps@[i as int]) =~= eps@.take(i + 1));
        }
        put_endpoint(out, &eps[i]);
        proof {
            assert(out@ =~= old(out)@ + enc_u32(eps.len() as u32) + enc_items(
                eps@.take(i + 1),
                endpoint_enc(),
            ));
        }
        i += 1;
    }
    proof {
        assert(eps@.take(eps@.len() as int) =~= eps@);
    }
    true
}

/// Appends the encoding of the list of lists `lists`. Appends nothing and
/// says `false` when it or one of its lists is too long for the format.
pub fn put_endpoint_lists(out: &mut Vec<u8>, lists: &Vec<Vec<Endpoint>>) -> (ok: bool)
    ensures
        ok == list_valid(endpoint_views(lists@), endpoints_valid()),
        ok ==> final(out)@ == old(out)@ + enc_list(endpoint_views(lists@), endpoints_enc()),
        !ok ==> final(out)@ == old(out)@,
{
    let ghost v = endpoint_views(lists@);
    if lists.len() > MAX_LEN {
        return false;
    }
    let mark = out.len();
    put_u32(out, lists.len() as u32);
    let mut i: usize = 0;
    while i < lists.len()
        invariant
            i <= lists.len(),
            lists.len() <= MAX_LEN,
            v == endpoint_views(lists@),
            forall|j: int| 0 <= j < i ==> list_valid(#[trigger] v[j], endpoint_valid()),
            mark == old(out)@.len(),
            out@ == old(out)@ + enc_u32(lists.len() as u32) + enc_items(
                v.take(i as int),
                endpoints_enc(),
            ),
        decreases lists.len() - i,
    {
        proof {
            assert(v[i as int] == lists@[i as int]@);
            lemma_items_push(v.take(i as int), v[i as int], endpoints_enc());
            assert(v.take(i as int).push(v[i as int]) =~= v.take(i + 1));
        }
        if !put_endpoints(out, &lists[i]) {
            out.truncate(mark);
            proof {
                assert(out@ =~= old(out)@);
            }
            return false;
        }
        proof {
            assert(out@ =~= old(out)@ + enc_u32(lists.len() as u32) + enc_items(
                v.take(i + 1),
                endpoints_enc(),
            ));
        }
        i += 1;
    }
    proof {
        assert(v.take(v.len() as int) =~= v);
    }
    true
}

/// Reads the 16-bit integer that stands at index `pos`.
pub fn get_u16(bytes: &[u8], pos: usize) -> (r: Option<(u16, usize)>)
    requires
        pos <= bytes@.len(),
    ensures
        match parse_u16(bytes@.skip(pos as int)) {
            Some((x, rest)) => r matches Some((v, n)) && v == x && n == pos + 2 && n
                <= bytes@.len() && bytes@.skip(pos + 2) == rest,
            None => r.is_none(),
        },
{
    if bytes.len() - pos < 2 {
        return None;
    }
    let x = u16_from_le_bytes(slice_subrange(bytes, pos, pos + 2));
    proof {
        assert(bytes@.skip(pos as int).take(2) =~= bytes@.subrange(pos as int, pos + 2));
        assert(bytes@.skip(pos as int).skip(2) =~= bytes@.skip(pos + 2));
    }
    Some((x, pos + 2))
}

/// Reads the 32-bit integer that stands at index `pos`.
pub fn get_u32(bytes: &[u8], pos: usize) -> (r: Option<(u32, usize)>)
    requires
        pos <= bytes@.len(),
    ensures
        match parse_u32(bytes@.skip(pos as int)) {
            Some((x, rest)) => r matches Some((v, n)) && v == x && n == pos + 4 && n
                <= bytes@.len() && bytes@.skip(pos + 4) == rest,
            None => r.is_none(),
        },
{
    if bytes.len() - pos < 4 {
        return None;
    }
    let x = u32_from_le_bytes(slice_subrange(bytes, pos, pos + 4));
    proof {
        assert(bytes@.skip(pos as int).take(4) =~= bytes@.subrange(pos as int, pos + 4));
        assert(bytes@.skip(pos as int).skip(4) =~= bytes@.skip(pos + 4));
    }
    Some((x, pos + 4))
}

/// Reads the 64-bit integer that stands at index `pos`.
pub fn get_u64(bytes: &[u8], pos: usize) -> (r: Option<(u64, usize)>)
    requires
        pos <= bytes@.len(),
    ensures
        match parse_u64(bytes@.skip(pos as int)) {
            Some((x, rest)) => r matches Some((v, n)) && v == x && n == pos + 8 && n
                <= bytes@.len() && bytes@.skip(pos + 8) == rest,
            None => r.is_none(),
        },
{
    if bytes.len() - pos < 8 {
        return None;
    }
    let x = u64_from_le_bytes(slice_subrange(bytes, pos, pos + 8));
    proof {
        assert(bytes@.skip(pos as int).take(8) =~= bytes@.subrange(pos as int, pos + 8));
        assert(bytes@.skip(pos as int).skip(8) =~= bytes@.skip(pos + 8));
    }
    Some((x, pos + 8))
}

/// Reads the byte string that stands at index `pos`.
pub fn get_bytes(bytes: &[u8], pos: usize) -> (r: Option<(Vec<u8>, usize)>)
    requires
        pos <= bytes@.len(),
    ensures
        match parse_bytes(bytes@.skip(pos as int)) {
            Some((s, rest)) => r matches Some((v, n)) && v@ == s && pos <= n <= bytes@.len()
                && bytes@.skip(n as int) == rest,
            None => r.is_none(),
        },
{
    let (n, start) = match get_u32(bytes, pos) {
        Some(x) => x,
        None => {
            return None;
        },
    };
    if bytes.len() - start < n as usize {
        return None;
    }
    let end = start + n as usize;
    let v = slice_to_vec(slice_subrange(bytes, start, end));
    proof {
        let rest = bytes@.skip(start as int);
        assert(rest.take(n as int) =~= bytes@.subrange(start as int, end as int));
        assert(rest.skip(n as int) =~= bytes@.skip(end as int));
    }
    Some((v, end))
}

/// Reads the endpoint that stands at index `pos`.
pub fn get_endpoint(bytes: &[u8], pos: usize) -> (r: Option<(Endpoint, usize)>)
    requires
        pos <= bytes@.len(),
    ensures
        match parse_endpoint(bytes@.skip(pos as int)) {
            Some((e, rest)) => r matches Some((v, n)) && v == e && pos <= n <= bytes@.len()
                && bytes@.skip(n as int) == rest,
            None => r.is_none(),
        },
{
    let ghost b = bytes@.skip(pos as int);
    let left = bytes.len() - pos;
    if left >= 7 && bytes[pos] == 4 {
        let port = u16_from_le_bytes(slice_subrange(bytes, pos + 5, pos + 7));
        let e = Endpoint {
            ip: Ip::V4(bytes[pos + 1], bytes[pos + 2], bytes[pos + 3], bytes[pos + 4]),
            port,
        };
        proof {
            assert(b.subrange(5, 7) =~= bytes@.subrange(pos + 5, pos + 7));
            assert(b.skip(7) =~= bytes@.skip(pos + 7));
        }
        Some((e, pos + 7))
    } else if left >= 19 && bytes[pos] == 6 {
        let g0 = u16_from_le_bytes(slice_subrange(bytes, pos + 1, pos + 3));
        let g1 = u16_from_le_bytes(slice_subrange(bytes, pos + 3, pos + 5));
        let g2 = u16_from_le_bytes(slice_subrange(bytes, pos + 5, pos + 7));
        let g3 = u16_from_le_bytes(slice_subrange(bytes, pos + 7, pos + 9));
        let g4 = u16_from_le_bytes(slice_subrange(bytes, pos + 9, pos + 11));
        let g5 = u16_from_le_bytes(slice_subrange(bytes, pos + 11, pos + 13));
        let g6 = u16_from_le_bytes(slice_subrange(bytes, pos + 13, pos + 15));
        let g7 = u16_from_le_bytes(slice_subrange(bytes, pos + 15, pos + 17));
        let port = u16_from_le_bytes(slice_subrange(bytes, pos + 17, pos + 19));
        proof {
            assert(b.subrange(1, 3) =~= bytes@.subrange(pos + 1, pos + 3));
            assert(b.subrange(3, 5) =~= bytes@.subrange(pos + 3, pos + 5));
            assert(b.subrange(5, 7) =~= bytes@.subrange(pos + 5, pos + 7));
            assert(b.subrange(7, 9) =~= bytes@.subrange(pos + 7, pos + 9));
            assert(b.subrange(9, 11) =~= bytes@.subrange(pos + 9, pos + 11));
            assert(b.subrange(11, 13) =~= bytes@.subrange(pos + 11, pos + 13));
            assert(b.subrange(13, 15) =~= bytes@.subrange(pos + 13, pos + 15));
            assert(b.subrange(15, 17) =~= bytes@.subrange(pos + 15, pos + 17));
            assert(b.subrange(17, 19) =~= bytes@.subrange(pos + 17, pos + 19));
            assert(b.skip(19) =~= bytes@.skip(pos + 19));
        }
        Some((Endpoint { ip: Ip::V6(g0, g1, g2, g3, g4, g5, g6, g7), port }, pos + 19))
    } else {
        None
    }
}

/// Reads the list of paths that stands at index `pos`.
pub fn get_paths(bytes: &[u8], pos: usize) -> (r: Option<(Vec<Path>, usize)>)
    requires
        pos <= bytes@.len(),
    ensures
        match parse_list(bytes@.skip(pos as int), path_parse()) {
            Some((xs, rest)) => r matches Some((v, n)) && path_views(v@) == xs && pos <= n
                <= bytes@.len() && bytes@.skip(n as int) == rest,
            None => r.is_none(),
        },
{
    let (count, start) = match get_u32(bytes, pos) {
        Some(x) => x,
        None => {
            return None;
        },
    };
    let ghost whole = parse_items(bytes@.skip(start as int), count as nat, path_parse());
    let mut v: Vec<Path> = Vec::new();
    let mut p: usize = start;
    let mut i: u32 = 0;
    proof {
        assert(path_views(v@) =~= Seq::<Seq<u8>>::empty());
        if let Some((xs, rest)) = whole {
            assert(path_views(v@) + xs =~= xs);
        }
    }
    while i < count
        invariant
            i <= count,
            pos <= start <= p <= bytes@.len(),
            parse_list(bytes@.skip(pos as int), path_parse()) == whole,
            whole == match parse_items(bytes@.skip(p as int), (count - i) as nat, path_parse()) {
                Some((xs, rest)) => Some((path_views(v@) + xs, rest)),
                None => None,
            },
        decreases count - i,
    {
        let ghost before = path_views(v@);
        match get_bytes(bytes, p) {
            None => {
                return None;
            },
            Some((s, q)) => {
                let path = Path::from_bytes(s);
                v.push(path);
                proof {
                    let tail = parse_items(
                        bytes@.skip(q as int),
                        (count - i - 1) as nat,
                        path_parse(),
                    );
                    assert(path_views(v@) =~= before.push(path@));
                    if let Some((xs, rest)) = tail {
                        assert(before + (seq![path@] + xs) =~= path_views(v@) + xs);
                    }
                }
                p = q;
                i += 1;
            },
        }
    }
    proof {
        assert(path_views(v@) + Seq::<Seq<u8>>::empty() =~= path_views(v@));
    }
    Some((v, p))
}

/// Reads the list of endpoints that stands at index `pos`.
pub fn get_endpoints(bytes: &[u8], pos: usize) -> (r: Option<(Vec<Endpoint>, usize)>)
    requires
        pos <= bytes@.len(),
    ensures
        match parse_list(bytes@.skip(pos as int), endpoint_parse()) {
            Some((xs, rest)) => r matches Some((v, n)) && v@ == xs && pos <= n <= bytes@.len()
                && bytes@.skip(n as int) == rest,
            None => r.is_none(),
        },
{
    let (count, start) = match get_u32(bytes, pos) {
        Some(x) => x,
        None => {
            return None;
        },
    };
    let ghost whole = parse_items(bytes@.skip(start as int), count as nat, endpoint_parse());
    let mut v: Vec<Endpoint> = Vec::new();
    let mut p: usize = start;
    let mut i: u32 = 0;
    proof {
        if let Some((xs, rest)) = whole {
            assert(v@ + xs =~= xs);
        }
    }
    while i < count
        invariant
            i <= count,
            pos <= start <= p <= bytes@.len(),
            parse_list(bytes@.skip(pos as int), endpoint_parse()) == whole,
            whole == match parse_items(
                bytes@.skip(p as int),
                (count - i) as nat,
                endpoint_parse(),
            ) {
                Some((xs, rest)) => Some((v@ + xs, rest)),
                None => None,
            },
        decreases count - i,
    {
        let ghost before = v@;
        match get_endpoint(bytes, p) {
            None => {
                return None;
            },
            Some((e, q)) => {
                v.push(e);
                proof {
                    let tail = parse_items(
                        bytes@.skip(q as int),
                        (count - i - 1) as nat,
                        endpoint_parse(),
                    );
                    if let Some((xs, rest)) = tail {
                        assert(before + (seq![e] + xs) =~= v@ + xs);
                    }
                }
                p = q;
                i += 1;
            },
        }
    }
    proof {
        assert(v@ + Seq::<Endpoint>::empty() =~= v@);
    }
    Some((v, p))
}

/// Reads the list of lists of endpoints that stands at index `pos`.
pub fn get_endpoint_lists(bytes: &[u8], pos: usize) -> (r: Option<(Vec<Vec<Endpoint>>, usize)>)
    requires
        pos <= bytes@.len(),
    ensures
        match parse_list(bytes@.skip(pos as int), endpoints_parse()) {
            Some((xs, rest)) => r matches Some((v, n)) && endpoint_views(v@) == xs && pos <= n
                <= bytes@.len() && bytes@.skip(n as int) == rest,
            None => r.is_none(),
        },
{
    let (count, start) = match get_u32(bytes, pos) {
        Some(x) => x,
        None => {
            return None;
        },
    };
    let ghost whole = parse_items(bytes@.skip(start as int), count as nat, endpoints_parse());
    let mut v: Vec<Vec<Endpoint>> = Vec::new();
    let mut p: usize = start;
    let mut i: u32 = 0;
    proof {
        assert(endpoint_views(v@) =~= Seq::<Seq<Endpoint>>::empty());
        if let Some((xs, rest)) = whole {
            assert(endpoint_views(v@) + xs =~= xs);
        }
    }
    while i < count
        invariant
            i <= count,
            pos <= start <= p <= bytes@.len(),
            parse_list(bytes@.skip(pos as int), endpoints_parse()) == whole,
            whole == match parse_items(
                bytes@.skip(p as int),
                (count - i) as nat,
                endpoints_parse(),
            ) {
                Some((xs, rest)) => Some((endpoint_views(v@) + xs, rest)),
                None => None,
            },
        decreases count - i,
    {
        let ghost before = endpoint_views(v@);
        match get_endpoints(bytes, p) {
            None => {
                return None;
            },
            Some((l, q)) => {
                let ghost lv = l@;
                v.push(l);
                proof {
                    let tail = parse_items(
                        bytes@.skip(q as int),
                        (count - i - 1) as nat,
                        endpoints_parse(),
                    );
                    assert(endpoint_views(v@) =~= before.push(lv));
                    if let Some((xs, rest)) = tail {
                        assert(before + (seq![lv] + xs) =~= endpoint_views(v@) + xs);
                    }
                }
                p = q;
                i += 1;
            },
        }
    }
    proof {
        assert(endpoint_views(v@) + Seq::<Seq<Endpoint>>::empty() =~= endpoint_views(v@));
    }
    Some((v, p))
}

} // verus!
