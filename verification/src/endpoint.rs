//! Transport addresses of publishers, and the rules an address must meet
//! before it is advertised.

use vstd::prelude::*;

verus! {

/// An internet address: four octets, or eight 16-bit segments.
#[derive(Clone, Copy, Debug, PartialEq, Eq, Structural, Hash, PartialOrd, Ord)]
pub enum Ip {
    V4(u8, u8, u8, u8),
    V6(u16, u16, u16, u16, u16, u16, u16, u16),
}

/// The address and port of a publisher's listener. Two endpoints are equal
/// when their addresses and ports are.
#[derive(Clone, Copy, Debug, PartialEq, Eq, Structural, Hash, PartialOrd, Ord)]
pub struct Endpoint {
    pub ip: Ip,
    pub port: u16,
}

/// Why an address may not be advertised.
#[derive(Clone, Copy, Debug, PartialEq, Eq, Structural)]
pub enum AddrError {
    LinkLocal,
    Broadcast,
    PrivateMismatch,
    Unspecified,
    Multicast,
    LoopbackMismatch,
}

impl Ip {
    /// An IPv4 address in 169.254.0.0/16.
    pub open spec fn spec_is_link_local_v4(self) -> bool {
        self matches Ip::V4(a, b, _, _) && a == 169 && b == 254
    }

    /// The IPv4 address 255.255.255.255.
    pub open spec fn spec_is_broadcast_v4(self) -> bool {
        self == Ip::V4(255, 255, 255, 255)
    }

    /// An IPv4 address in 10.0.0.0/8, 172.16.0.0/12 or 192.168.0.0/16.
    pub open spec fn spec_is_private_v4(self) -> bool {
        self matches Ip::V4(a, b, _, _) && (a == 10 || (a == 172 && 16 <= b <= 31) || (a == 192 && b
            == 168))
    }

    /// 0.0.0.0 or `::`.
    pub open spec fn spec_is_unspecified(self) -> bool {
        self == Ip::V4(0, 0, 0, 0) || self == Ip::V6(0, 0, 0, 0, 0, 0, 0, 0)
    }

    /// An IPv4 address in 224.0.0.0/4, or an IPv6 address in ff00::/8.
    pub open spec fn spec_is_multicast(self) -> bool {
        match self {
            Ip::V4(a, _, _, _) => 224 <= a <= 239,
            Ip::V6(s, _, _, _, _, _, _, _) => s >= 0xff00,
        }
    }

    /// An IPv4 address in 127.0.0.0/8, or `::1`.
    pub open spec fn spec_is_loopback(self) -> bool {
        match self {
            Ip::V4(a, _, _, _) => a == 127,
            Ip::V6(..) => self == Ip::V6(0, 0, 0, 0, 0, 0, 0, 1),
        }
    }

    /// An IPv6 address.
    pub open spec fn spec_is_v6(self) -> bool {
        self is V6
    }

    #[verifier::when_used_as_spec(spec_is_link_local_v4)]
    pub fn is_link_local_v4(self) -> (b: bool)
        ensures
            b == self.spec_is_link_local_v4(),
    {
        match self {
            Ip::V4(a, b, _, _) => a == 169 && b == 254,
            Ip::V6(..) => false,
        }
    }

    #[verifier::when_used_as_spec(spec_is_broadcast_v4)]
    pub fn is_broadcast_v4(self) -> (b: bool)
        ensures
            b == self.spec_is_broadcast_v4(),
    {
        match self {
            Ip::V4(a, b, c, d) => a == 255 && b == 255 && c == 255 && d == 255,
            Ip::V6(..) => false,
        }
    }

    #[verifier::when_used_as_spec(spec_is_private_v4)]
    pub fn is_private_v4(self) -> (b: bool)
        ensures
            b == self.spec_is_private_v4(),
    {
        match self {
            Ip::V4(a, b, _, _) => a == 10 || (a == 172 && 16 <= b && b <= 31) || (a == 192 && b
                == 168),
            Ip::V6(..) => false,
        }
    }

    #[verifier::when_used_as_spec(spec_is_unspecified)]
    pub fn is_unspecified(self) -> (b: bool)
        ensures
            b == self.spec_is_unspecified(),
    {
        match self {
            Ip::V4(a, b, c, d) => a == 0 && b == 0 && c == 0 && d == 0,
            Ip::V6(a, b, c, d, e, f, g, h) => a == 0 && b == 0 && c == 0 && d == 0 && e == 0 && f
                == 0 && g == 0 && h == 0,
        }
    }

    #[verifier::when_used_as_spec(spec_is_multicast)]
    pub fn is_multicast(self) -> (b: bool)
        ensures
            b == self.spec_is_multicast(),
    {
        match self {
            Ip::V4(a, _, _, _) => 224 <= a && a <= 239,
            Ip::V6(s, _, _, _, _, _, _, _) => s >= 0xff00,
        }
    }

    #[verifier::when_used_as_spec(spec_is_loopback)]
    pub fn is_loopback(self) -> (b: bool)
        ensures
            b == self.spec_is_loopback(),
    {
        match self {
            Ip::V4(a, _, _, _) => a == 127,
            Ip::V6(a, b, c, d, e, f, g, h) => a == 0 && b == 0 && c == 0 && d == 0 && e == 0 && f
                == 0 && g == 0 && h == 1,
        }
    }
}

impl Endpoint {
    /// The endpoint at IPv4 address `a.b.c.d` and port `port`.
    pub fn v4(a: u8, b: u8, c: u8, d: u8, port: u16) -> (e: Endpoint)
        ensures
            e == (Endpoint { ip: Ip::V4(a, b, c, d), port }),
    {
        Endpoint { ip: Ip::V4(a, b, c, d), port }
    }
}

impl AddrError {
    /// The text that goes with the error.
    pub fn message(&self) -> (s: &'static str)
        ensures
            s@ == match *self {
                AddrError::LinkLocal => "addr is a link local address"@,
                AddrError::Broadcast => "addr is a broadcast address"@,
                AddrError::PrivateMismatch => "addr is a private address, and the resolver is not"@,
                AddrError::Unspecified => "addr is an unspecified address"@,
                AddrError::Multicast => "addr is a multicast address"@,
                AddrError::LoopbackMismatch => "addr is a loopback address and the resolver is not"@,
            },
    {
        match self {
            AddrError::LinkLocal => "addr is a link local address",
            AddrError::Broadcast => "addr is a broadcast address",
            AddrError::PrivateMismatch => "addr is a private address, and the resolver is not",
            AddrError::Unspecified => "addr is an unspecified address",
            AddrError::Multicast => "addr is a multicast address",
            AddrError::LoopbackMismatch => "addr is a loopback address and the resolver is not",
        }
    }
}

/// Every resolver can be reached from a private IPv4 address: each is itself
/// at a private IPv4 address, or at an IPv6 address.
pub open spec fn all_private_or_v6(resolvers: Seq<Endpoint>) -> bool {
    forall|i: int|
        0 <= i < resolvers.len() ==> (#[trigger] resolvers[i]).ip.spec_is_private_v4()
            || resolvers[i].ip.spec_is_v6()
}

/// Every resolver is at a loopback address.
pub open spec fn all_loopback(resolvers: Seq<Endpoint>) -> bool {
    forall|i: int| 0 <= i < resolvers.len() ==> (#[trigger] resolvers[i]).ip.spec_is_loopback()
}

/// The first rule that `ip` breaks, if it breaks one. A publisher may not
/// advertise a link-local, broadcast, unspecified or multicast address; a
/// private address only when every resolver is private too (or IPv6); a
/// loopback address only when every resolver is loopback too.
pub open spec fn addr_fault(ip: Ip, resolvers: Seq<Endpoint>) -> Option<AddrError> {
    if ip.spec_is_link_local_v4() {
        Some(AddrError::LinkLocal)
    } else if ip.spec_is_broadcast_v4() {
        Some(AddrError::Broadcast)
    } else if ip.spec_is_private_v4() && !all_private_or_v6(resolvers) {
        Some(AddrError::PrivateMismatch)
    } else if ip.spec_is_unspecified() {
        Some(AddrError::Unspecified)
    } else if ip.spec_is_multicast() {
        Some(AddrError::Multicast)
    } else if ip.spec_is_loopback() && !all_loopback(resolvers) {
        Some(AddrError::LoopbackMismatch)
    } else {
        None
    }
}

fn resolvers_all_private_or_v6(resolvers: &[Endpoint]) -> (b: bool)
    ensures
        b == all_private_or_v6(resolvers@),
{
    let mut i: usize = 0;
    while i < resolvers.len()
        invariant
            i <= resolvers.len(),
            forall|j: int|
                0 <= j < i ==> (#[trigger] resolvers@[j]).ip.spec_is_private_v4()
                    || resolvers@[j].ip.spec_is_v6(),
        decreases resolvers.len() - i,
    {
        let ip = resolvers[i].ip;
        let v6 = match ip {
            Ip::V6(..) => true,
            Ip::V4(..) => false,
        };
        if !(ip.is_private_v4() || v6) {
            return false;
        }
        i += 1;
    }
    true
}

fn resolvers_all_loopback(resolvers: &[Endpoint]) -> (b: bool)
    ensures
        b == all_loopback(resolvers@),
{
    let mut i: usize = 0;
    while i < resolvers.len()
        invariant
            i <= resolvers.len(),
            forall|j: int| 0 <= j < i ==> (#[trigger] resolvers@[j]).ip.spec_is_loopback(),
        decreases resolvers.len() - i,
    {
        if !resolvers[i].ip.is_loopback() {
            return false;
        }
        i += 1;
    }
    true
}

/// Checks that a publisher at `ip` may advertise itself to `resolvers`.
pub fn check_addr(ip: Ip, resolvers: &[Endpoint]) -> (r: Result<(), AddrError>)
    ensures
        match addr_fault(ip, resolvers@) {
            Some(e) => r == Err::<(), AddrError>(e),
            None => r is Ok,
        },
{
    if ip.is_link_local_v4() {
        return Err(AddrError::LinkLocal);
    }
    if ip.is_broadcast_v4() {
        return Err(AddrError::Broadcast);
    }
    if ip.is_private_v4() && !resolvers_all_private_or_v6(resolvers) {
        return Err(AddrError::PrivateMismatch);
    }
    if ip.is_unspecified() {
        return Err(AddrError::Unspecified);
    }
    if ip.is_multicast() {
        return Err(AddrError::Multicast);
    }
    if ip.is_loopback() && !resolvers_all_loopback(resolvers) {
        return Err(AddrError::LoopbackMismatch);
    }
    Ok(())
}

} // verus!
