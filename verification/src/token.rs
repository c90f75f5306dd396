//! Byte buffers and salted tokens.
//!
//! A token is a salt followed by the SHA3-512 digest of the salt and a
//! secret. Whoever knows the secret can check a token; the salt makes two
//! tokens for one secret differ.

use sha3::Digest;
use vstd::prelude::*;
use vstd::bytes::{spec_u64_to_le_bytes, u64_to_le_bytes};

verus! {

/// `bytes::Bytes`, a buffer of bytes that is not to be changed; nothing of
/// its inside is known here.
#[verifier::external_type_specification]
#[verifier::external_body]
pub struct ExBytes(bytes::Bytes);

/// `bytes::BytesMut`, a buffer of bytes that can grow; nothing of its
/// inside is known here.
#[verifier::external_type_specification]
#[verifier::external_body]
pub struct ExBytesMut(bytes::BytesMut);

/// The bytes that a `Bytes` holds.
pub uninterp spec fn bytes_contents(b: bytes::Bytes) -> Seq<u8>;

/// The bytes that a `BytesMut` holds.
pub uninterp spec fn bytes_mut_contents(b: bytes::BytesMut) -> Seq<u8>;

/// The SHA3-512 digest of `data`.
pub uninterp spec fn sha3_512(data: Seq<u8>) -> Seq<u8>;

/// `BytesMut::from` on a slice: a buffer that holds a copy of the slice.
#[verifier::external_body]
fn bytes_mut_from(t: &[u8]) -> (b: bytes::BytesMut)
    ensures
        bytes_mut_contents(b) == t@,
{
    bytes::BytesMut::from(t)
}

/// `BytesMut::freeze`: the same bytes, no longer to be changed.
#[verifier::external_body]
fn bytes_mut_freeze(b: bytes::BytesMut) -> (r: bytes::Bytes)
    ensures
        bytes_contents(r) == bytes_mut_contents(b),
{
    b.freeze()
}

/// `Bytes::from` on a vector: a buffer that holds the bytes of the vector.
#[verifier::external_body]
fn bytes_from_vec(v: Vec<u8>) -> (r: bytes::Bytes)
    ensures
        bytes_contents(r) == v@,
{
    bytes::Bytes::from(v)
}

/// The bytes of a `Bytes`, copied out through its `Deref` to a slice.
#[verifier::external_body]
fn bytes_as_vec(b: &bytes::Bytes) -> (v: Vec<u8>)
    ensures
        v@ == bytes_contents(*b),
{
    b.to_vec()
}

/// `Digest::digest` of `Sha3_512`: the digest of `data`, which is 64 bytes
/// long.
#[verifier::external_body]
fn sha3_512_digest(data: &[u8]) -> (out: Vec<u8>)
    ensures
        out@ == sha3_512(data@),
        out@.len() == 64,
{
    sha3::Sha3_512::digest(data).to_vec()
}

/// `Rng::gen` on the thread's generator of `rand`: some 64-bit number.
#[verifier::external_body]
fn random_u64() -> (x: u64) {
    rand::Rng::gen::<u64>(&mut rand::thread_rng())
}

/// A buffer that holds a copy of `t`.
pub fn bytesmut(t: &[u8]) -> (b: bytes::BytesMut)
    ensures
        bytes_mut_contents(b) == t@,
{
    bytes_mut_from(t)
}

/// A buffer that holds a copy of `t` and is not to be changed.
pub fn bytes(t: &[u8]) -> (b: bytes::Bytes)
    ensures
        bytes_contents(b) == t@,
{
    bytes_mut_freeze(bytesmut(t))
}

/// The bytes that `b` holds, as a vector.
pub fn to_vec(b: &bytes::Bytes) -> (v: Vec<u8>)
    ensures
        v@ == bytes_contents(*b),
{
    bytes_as_vec(b)
}

/// The eight bytes of `x`, the most significant first.
pub open spec fn u64_be(x: u64) -> Seq<u8> {
    spec_u64_to_le_bytes(x).reverse()
}

/// The parts one behind the other.
pub open spec fn concat_parts(parts: Seq<&[u8]>) -> Seq<u8>
    decreases parts.len(),
{
    if parts.len() == 0 {
        Seq::empty()
    } else {
        concat_parts(parts.drop_last()) + parts.last()@
    }
}

/// The token for `secret` with the salt `salt`: the salt, then the digest
/// of the salt followed by the parts of the secret.
pub open spec fn token_bytes(salt: u64, secret: Seq<&[u8]>) -> Seq<u8> {
    u64_be(salt) + sha3_512(u64_be(salt) + concat_parts(secret))
}

/// The eight bytes of `x`, the most significant first.
pub fn u64_to_be_bytes(x: u64) -> (v: Vec<u8>)
    ensures
        v@ == u64_be(x),
        v@.len() == 8,
{
    let le = u64_to_le_bytes(x);
    let mut v: Vec<u8> = Vec::new();
    let mut i: usize = 8;
    while i > 0
        invariant
            i <= 8,
            le@.len() == 8,
            v@.len() == 8 - i,
            forall|j: int| 0 <= j < v@.len() ==> v@[j] == le@[7 - j],
        decreases i,
    {
        i -= 1;
        v.push(le[i]);
    }
    proof {
        assert(v@ =~= le@.reverse());
    }
    v
}

/// The token for `secret` with the salt `salt`.
pub fn token_with_salt(salt: u64, secret: &[&[u8]]) -> (r: bytes::Bytes)
    ensures
        bytes_contents(r) == token_bytes(salt, secret@),
        bytes_contents(r).len() == 72,
{
    let mut token = u64_to_be_bytes(salt);
    let mut message = u64_to_be_bytes(salt);
    let mut i: usize = 0;
    while i < secret.len()
        invariant
            i <= secret.len(),
            message@ == u64_be(salt) + concat_parts(secret@.take(i as int)),
        decreases secret.len() - i,
    {
        let part = secret[i];
        let mut k: usize = 0;
        let ghost before = message@;
        while k < part.len()
            invariant
                k <= part.len(),
                message@ == before + part@.take(k as int),
            decreases part.len() - k,
        {
            message.push(part[k]);
            proof {
                assert(part@.take(k + 1) =~= part@.take(k as int).push(part@[k as int]));
            }
            k += 1;
        }
        proof {
            assert(part@.take(part@.len() as int) =~= part@);
            assert(secret@.take(i + 1).drop_last() =~= secret@.take(i as int));
            assert(secret@.take(i + 1).last() == part);
            assert(message@ =~= u64_be(salt) + concat_parts(secret@.take(i + 1)));
        }
        i += 1;
    }
    proof {
        assert(secret@.take(secret@.len() as int) =~= secret@);
    }
    let mut digest = sha3_512_digest(message.as_slice());
    token.append(&mut digest);
    bytes_from_vec(token)
}

/// A token for `secret`: with the salt `salt` when one is given, with a
/// salt drawn at random otherwise.
pub fn make_sha3_token(salt: Option<u64>, secret: &[&[u8]]) -> (r: bytes::Bytes)
    ensures
        salt matches Some(x) ==> bytes_contents(r) == token_bytes(x, secret@),
        exists|x: u64| bytes_contents(r) == token_bytes(x, secret@),
        bytes_contents(r).len() == 72,
{
    let salt = match salt {
        Some(x) => x,
        None => random_u64(),
    };
    token_with_salt(salt, secret)
}

} // verus!
