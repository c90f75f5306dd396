//! Packing messages into buffers.

use vstd::prelude::*;
use crate::codec::{
    enc_client_hello, enc_request, enc_response, enc_server_hello, encode_client_hello,
    encode_request, encode_response, encode_server_hello, request_fits, response_fits,
};
use crate::protocol::{ClientHello, FromResolver, ServerHello, ToResolver};
use crate::token::{bytes_mut_contents, bytesmut};

verus! {

/// Why a value cannot be packed.
#[derive(Clone, Copy, Debug, PartialEq, Eq, Structural)]
pub enum PackError {
    /// The value is too large for the wire format.
    TooLarge,
}

/// A value that has an encoding for the wire.
pub trait Pack {
    /// The encoding of the value; nothing when the value is too large for
    /// the wire format.
    spec fn packed(&self) -> Option<Seq<u8>>;

    /// Appends the encoding of the value to `buf`. Appends nothing when
    /// the value cannot be packed.
    fn encode(&self, buf: &mut Vec<u8>) -> (r: Result<(), PackError>)
        ensures
            match self.packed() {
                Some(b) => r is Ok && final(buf)@ == old(buf)@ + b,
                None => r == Err::<(), PackError>(PackError::TooLarge) && final(buf)@ == old(
                    buf,
                )@,
            },
    ;
}

impl Pack for ClientHello {
    open spec fn packed(&self) -> Option<Seq<u8>> {
        Some(enc_client_hello(*self))
    }

    fn encode(&self, buf: &mut Vec<u8>) -> (r: Result<(), PackError>) {
        let mut bytes = encode_client_hello(self);
        buf.append(&mut bytes);
        Ok(())
    }
}

impl Pack for ServerHello {
    open spec fn packed(&self) -> Option<Seq<u8>> {
        Some(enc_server_hello(*self))
    }

    fn encode(&self, buf: &mut Vec<u8>) -> (r: Result<(), PackError>) {
        let mut bytes = encode_server_hello(self);
        buf.append(&mut bytes);
        Ok(())
    }
}

impl Pack for ToResolver {
    open spec fn packed(&self) -> Option<Seq<u8>> {
        if request_fits(self@) {
            Some(enc_request(self@))
        } else {
            None
        }
    }

    fn encode(&self, buf: &mut Vec<u8>) -> (r: Result<(), PackError>) {
        match encode_request(self) {
            Some(mut bytes) => {
                buf.append(&mut bytes);
                Ok(())
            },
            None => Err(PackError::TooLarge),
        }
    }
}

impl Pack for FromResolver {
    open spec fn packed(&self) -> Option<Seq<u8>> {
        if response_fits(self@) {
            Some(enc_response(self@))
        } else {
            None
        }
    }

    fn encode(&self, buf: &mut Vec<u8>) -> (r: Result<(), PackError>) {
        match encode_response(self) {
            Some(mut bytes) => {
                buf.append(&mut bytes);
                Ok(())
            },
            None => Err(PackError::TooLarge),
        }
    }
}

/// The encoding of `t` in a buffer of its own.
pub fn pack<T: Pack>(t: &T) -> (r: Result<bytes::BytesMut, PackError>)
    ensures
        match t.packed() {
            Some(b) => r matches Ok(m) && bytes_mut_contents(m) == b,
            None => r matches Err(e) && e == PackError::TooLarge,
        },
{
    let mut buf: Vec<u8> = Vec::new();
    match t.encode(&mut buf) {
        Ok(()) => {
            proof {
                assert(buf@ =~= t.packed()->0);
            }
            Ok(bytesmut(buf.as_slice()))
        },
        Err(e) => Err(e),
    }
}

} // verus!
