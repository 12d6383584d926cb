//! Network addresses as plain values, and their compact wire form.

use crate::bigend::{be_value, lemma_be_value_bound, lemma_be_value_order};
use crate::order::{bytes_lt, key_order, KeyOrder};
use vstd::arithmetic::power2::{lemma2_to64, pow2};
use vstd::prelude::*;

verus! {

/// An IP address: the four octets of IPv4 or the sixteen of IPv6, in
/// network order.
#[derive(Debug, Clone, Copy, PartialEq, Eq)]
pub enum IpAddress {
    V4([u8; 4]),
    V6([u8; 16]),
}

/// An IP address with a port.
#[derive(Debug, Clone, Copy, PartialEq, Eq)]
pub struct SocketAddress {
    pub ip: IpAddress,
    pub port: u16,
}

impl IpAddress {
    /// The octets in network order.
    pub open spec fn octets(&self) -> Seq<u8> {
        match self {
            IpAddress::V4(a) => a@,
            IpAddress::V6(a) => a@,
        }
    }

    /// The place of the address in the order of addresses: every IPv4
    /// address comes before every IPv6 address, and within a family the
    /// octets decide.
    pub open spec fn rank(&self) -> nat {
        match self {
            IpAddress::V4(a) => be_value(a@),
            IpAddress::V6(a) => pow2(32) + be_value(a@),
        }
    }

    /// The loopback address of IPv4, 127.0.0.1.
    pub fn localhost() -> (r: IpAddress)
        ensures
            r == IpAddress::V4([127u8, 0u8, 0u8, 1u8]),
    {
        IpAddress::V4([127, 0, 0, 1])
    }

    /// Whether this is an IPv4 address.
    pub fn is_ipv4(&self) -> (r: bool)
        ensures
            r == (*self is V4),
    {
        match self {
            IpAddress::V4(_) => true,
            IpAddress::V6(_) => false,
        }
    }

    /// Whether this is an IPv6 address.
    pub fn is_ipv6(&self) -> (r: bool)
        ensures
            r == (*self is V6),
    {
        match self {
            IpAddress::V4(_) => false,
            IpAddress::V6(_) => true,
        }
    }

    /// The octets in network order.
    pub fn as_bytes(&self) -> (r: &[u8])
        ensures
            r@ == self.octets(),
    {
        match self {
            IpAddress::V4(a) => a.as_slice(),
            IpAddress::V6(a) => a.as_slice(),
        }
    }

    /// Whether the two addresses are the same.
    pub fn same(&self, other: &IpAddress) -> (r: bool)
        ensures
            r == (*self == *other),
            r == (self.rank() == other.rank()),
    {
        proof {
            lemma_rank_decides(*self, *other);
        }
        match (self, other) {
            (IpAddress::V4(a), IpAddress::V4(b)) => match key_order(a.as_slice(), b.as_slice()) {
                KeyOrder::Equal => true,
                _ => false,
            },
            (IpAddress::V6(a), IpAddress::V6(b)) => match key_order(a.as_slice(), b.as_slice()) {
                KeyOrder::Equal => true,
                _ => false,
            },
            _ => false,
        }
    }

    /// Whether this address comes before `other`.
    pub fn lt(&self, other: &IpAddress) -> (r: bool)
        ensures
            r == (self.rank() < other.rank()),
    {
        proof {
            lemma_rank_decides(*self, *other);
            lemma_rank_decides(*other, *self);
        }
        match (self, other) {
            (IpAddress::V4(a), IpAddress::V4(b)) => match key_order(a.as_slice(), b.as_slice()) {
                KeyOrder::Less => true,
                _ => false,
            },
            (IpAddress::V6(a), IpAddress::V6(b)) => match key_order(a.as_slice(), b.as_slice()) {
                KeyOrder::Less => true,
                _ => false,
            },
            (IpAddress::V4(_), IpAddress::V6(_)) => true,
            (IpAddress::V6(_), IpAddress::V4(_)) => false,
        }
    }
}

/// Addresses are the same exactly if their ranks are, and within a family
/// the rank follows the byte order of the octets.
pub proof fn lemma_rank_decides(a: IpAddress, b: IpAddress)
    ensures
        a == b <==> a.rank() == b.rank(),
        a is V4 && b is V6 ==> a.rank() < b.rank(),
        (a is V4) == (b is V4) ==> (a.rank() < b.rank() <==> bytes_lt(a.octets(), b.octets())),
        (a is V4) == (b is V4) ==> (a.rank() == b.rank() <==> a.octets() == b.octets()),
        a.rank() < pow2(32) + pow2(128),
{
    lemma2_to64();
    match (a, b) {
        (IpAddress::V4(x), IpAddress::V4(y)) => {
            lemma_be_value_order(x@, y@);
            lemma_be_value_bound(x@);
            if x@ == y@ {
                assert(x =~= y);
            }
        },
        (IpAddress::V6(x), IpAddress::V6(y)) => {
            lemma_be_value_order(x@, y@);
            lemma_be_value_bound(x@);
            if x@ == y@ {
                assert(x =~= y);
            }
        },
        (IpAddress::V4(x), IpAddress::V6(y)) => {
            lemma_be_value_bound(x@);
            lemma_be_value_bound(y@);
        },
        (IpAddress::V6(x), IpAddress::V4(y)) => {
            lemma_be_value_bound(x@);
            lemma_be_value_bound(y@);
        },
    }
}

impl SocketAddress {
    /// The place of the endpoint in the order of endpoints: by address
    /// first, then by port.
    pub open spec fn rank(&self) -> nat {
        self.ip.rank() * 65536 + self.port as nat
    }

    /// The compact wire form: the octets of the address, then the port with
    /// its high byte first.
    pub open spec fn packed(&self) -> Seq<u8> {
        self.ip.octets() + seq![(self.port / 256) as u8, (self.port % 256) as u8]
    }

    /// An endpoint.
    pub fn new(ip: IpAddress, port: u16) -> (r: SocketAddress)
        ensures
            r == (SocketAddress { ip, port }),
    {
        SocketAddress { ip, port }
    }

    /// The address.
    pub fn ip(&self) -> (r: IpAddress)
        ensures
            r == self.ip,
    {
        self.ip
    }

    /// The port.
    pub fn port(&self) -> (r: u16)
        ensures
            r == self.port,
    {
        self.port
    }

    /// Whether the address is an IPv4 address.
    pub fn is_ipv4(&self) -> (r: bool)
        ensures
            r == (self.ip is V4),
    {
        self.ip.is_ipv4()
    }

    /// Whether the address is an IPv6 address.
    pub fn is_ipv6(&self) -> (r: bool)
        ensures
            r == (self.ip is V6),
    {
        self.ip.is_ipv6()
    }

    /// Whether the two endpoints are the same.
    pub fn same(&self, other: &SocketAddress) -> (r: bool)
        ensures
            r == (*self == *other),
            r == (self.rank() == other.rank()),
    {
        proof {
            lemma_endpoint_rank(*self, *other);
        }
        self.ip.same(&other.ip) && self.port == other.port
    }

    /// Whether this endpoint comes before `other`.
    pub fn lt(&self, other: &SocketAddress) -> (r: bool)
        ensures
            r == (self.rank() < other.rank()),
    {
        proof {
            lemma_endpoint_rank(*self, *other);
        }
        if self.ip.lt(&other.ip) {
            true
        } else if self.ip.same(&other.ip) {
            self.port < other.port
        } else {
            false
        }
    }
}

/// Endpoints are ordered by address first and by port second, and two
/// endpoints with one rank are the same.
pub proof fn lemma_endpoint_rank(a: SocketAddress, b: SocketAddress)
    ensures
        a == b <==> a.rank() == b.rank(),
        a.rank() < b.rank() <==> (a.ip.rank() < b.ip.rank() || (a.ip.rank() == b.ip.rank() && a.port
            < b.port)),
{
    lemma_rank_decides(a.ip, b.ip);
    let x = a.ip.rank() as int;
    let y = b.ip.rank() as int;
    if x < y {
        assert(x * 65536 + 65536 <= y * 65536);
    } else if y < x {
        assert(y * 65536 + 65536 <= x * 65536);
    }
}

/// Appends the octets of `addr` to `out`.
pub fn write_address(out: &mut Vec<u8>, addr: &IpAddress)
    ensures
        final(out)@ == old(out)@ + addr.octets(),
{
    crate::value_ref::push_bytes(out, addr.as_bytes());
}

/// Appends the compact form of `addr` to `out`.
pub fn write_socket_addr(out: &mut Vec<u8>, addr: &SocketAddress)
    ensures
        final(out)@ == old(out)@ + addr.packed(),
{
    write_address(out, &addr.ip);
    out.push((addr.port / 256) as u8);
    out.push((addr.port % 256) as u8);
    proof {
        assert(final(out)@ =~= old(out)@ + addr.packed());
    }
}

/// The IPv4 address at the front of `bytes`, if four bytes are there.
pub fn read_v4_address(bytes: &[u8]) -> (r: Option<IpAddress>)
    ensures
        bytes@.len() < 4 ==> r.is_none(),
        bytes@.len() >= 4 ==> r.is_some() && r.unwrap() is V4 && r.unwrap().octets()
            == bytes@.take(4),
{
    if bytes.len() < 4 {
        return None;
    }
    let a: [u8; 4] = [bytes[0], bytes[1], bytes[2], bytes[3]];
    proof {
        assert(a@ =~= bytes@.take(4));
    }
    Some(IpAddress::V4(a))
}

/// The IPv6 address at the front of `bytes`, if sixteen bytes are there.
pub fn read_v6_address(bytes: &[u8]) -> (r: Option<IpAddress>)
    ensures
        bytes@.len() < 16 ==> r.is_none(),
        bytes@.len() >= 16 ==> r.is_some() && r.unwrap() is V6 && r.unwrap().octets()
            == bytes@.take(16),
{
    if bytes.len() < 16 {
        return None;
    }
    let mut a: [u8; 16] = [0;16];
    let mut i: usize = 0;
    while i < 16
        invariant
            0 <= i <= 16,
            bytes@.len() >= 16,
            forall|j: int| 0 <= j < i ==> a@[j] == bytes@[j],
        decreases 16 - i,
    {
        a[i] = bytes[i];
        i += 1;
    }
    proof {
        assert(a@ =~= bytes@.take(16));
    }
    Some(IpAddress::V6(a))
}

/// The IPv4 endpoint at the front of `bytes`, if six bytes are there.
pub fn read_v4_socket_address(bytes: &[u8]) -> (r: Option<SocketAddress>)
    ensures
        bytes@.len() < 6 ==> r.is_none(),
        bytes@.len() >= 6 ==> r.is_some() && r.unwrap().ip is V4 && r.unwrap().packed()
            == bytes@.take(6),
{
    if bytes.len() < 6 {
        return None;
    }
    let ip = match read_v4_address(bytes) {
        Some(ip) => ip,
        None => {
            return None;
        },
    };
    let port: u16 = (bytes[4] as u16) * 256 + bytes[5] as u16;
    let r = SocketAddress { ip, port };
    proof {
        assert(r.packed() =~= bytes@.take(6));
    }
    Some(r)
}

/// The IPv6 endpoint at the front of `bytes`, if eighteen bytes are there.
pub fn read_v6_socket_address(bytes: &[u8]) -> (r: Option<SocketAddress>)
    ensures
        bytes@.len() < 18 ==> r.is_none(),
        bytes@.len() >= 18 ==> r.is_some() && r.unwrap().ip is V6 && r.unwrap().packed()
            == bytes@.take(18),
{
    if bytes.len() < 18 {
        return None;
    }
    let ip = match read_v6_address(bytes) {
        Some(ip) => ip,
        None => {
            return None;
        },
    };
    let port: u16 = (bytes[16] as u16) * 256 + bytes[17] as u16;
    let r = SocketAddress { ip, port };
    proof {
        assert(r.packed() =~= bytes@.take(18));
    }
    Some(r)
}

/// The compact form of an endpoint reads back as the endpoint.
pub proof fn lemma_packed_decides(a: SocketAddress, b: SocketAddress)
    requires
        a.packed() == b.packed(),
        (a.ip is V4) == (b.ip is V4),
    ensures
        a == b,
{
    let n = a.ip.octets().len() as int;
    assert(a.ip.octets().len() == b.ip.octets().len());
    assert(a.packed().take(n) =~= a.ip.octets());
    assert(b.packed().take(n) =~= b.ip.octets());
    assert(a.packed()[n] == (a.port / 256) as u8);
    assert(a.packed()[n + 1] == (a.port % 256) as u8);
    assert(b.packed()[n] == (b.port / 256) as u8);
    assert(b.packed()[n + 1] == (b.port % 256) as u8);
    lemma_rank_decides(a.ip, b.ip);
}

/// How many of the leading items of `values` are not below `value`.
pub fn lower_bound(values: &[u64], value: u64) -> (r: usize)
    ensures
        r <= values@.len(),
        forall|j: int| 0 <= j < r ==> values@[j] >= value,
        r < values@.len() ==> values@[r as int] < value,
{
    let mut i: usize = 0;
    while i < values.len()
        invariant
            0 <= i <= values@.len(),
            forall|j: int| 0 <= j < i ==> values@[j] >= value,
        ensures
            0 <= i <= values@.len(),
            forall|j: int| 0 <= j < i ==> values@[j] >= value,
            i < values@.len() ==> values@[i as int] < value,
        decreases values@.len() - i,
    {
        if value > values[i] {
            break ;
        }
        i += 1;
    }
    i
}

} // verus!
