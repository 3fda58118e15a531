//! Socket addresses as the headers carry them.
use vstd::prelude::*;
use crate::wire::{be_bytes, be_value, byte_pow, lemma_be_bytes_len, lemma_be_bytes_of_value, lemma_be_value_bound, lemma_be_value_of_bytes, push_be, read_be};

verus! {

/// An IP address: IPv4 held as its 32-bit number, IPv6 as its 128-bit number.
#[derive(Clone, Copy, Debug, PartialEq, Eq, Structural)]
pub enum IpAddr {
    V4(u32),
    V6(u128),
}

/// An IP address and a port.
#[derive(Clone, Copy, Debug, PartialEq, Eq, Structural)]
pub struct SocketAddr {
    pub ip: IpAddr,
    pub port: u16,
}

impl SocketAddr {
    pub fn new(ip: IpAddr, port: u16) -> (res: SocketAddr)
        ensures
            res == (SocketAddr { ip, port }),
    {
        SocketAddr { ip, port }
    }

    /// Only IPv4 addresses travel in a header: decoding always reads four octets.
    pub open spec fn is_v4(self) -> bool {
        self.ip is V4
    }
}

/// The octets of an IP address, most significant first.
pub open spec fn ip_octets(ip: IpAddr) -> Seq<u8> {
    match ip {
        IpAddr::V4(v) => be_bytes(v as nat, 4),
        IpAddr::V6(v) => be_bytes(v as nat, 16),
    }
}

/// An address on the wire: the octets of the IP, then the port in two bytes.
pub open spec fn addr_bytes(a: SocketAddr) -> Seq<u8> {
    ip_octets(a.ip) + be_bytes(a.port as nat, 2)
}

/// The 32-bit number that an IP address contributes to a checksum
/// (an IPv6 address is cut to its low 32 bits).
pub open spec fn ip_word(ip: IpAddr) -> nat {
    match ip {
        IpAddr::V4(v) => v as nat,
        IpAddr::V6(v) => (v as nat) % 0x1_0000_0000,
    }
}

/// What an address adds to a checksum: its IP word plus its port, modulo 2^32.
pub open spec fn addr_sum(a: SocketAddr) -> nat {
    (ip_word(a.ip) + a.port as nat) % 0x1_0000_0000
}

/// The address that six bytes denote: four IPv4 octets, then a port.
pub open spec fn addr_of_bytes(s: Seq<u8>) -> SocketAddr {
    SocketAddr {
        ip: IpAddr::V4(be_value(s.subrange(0, 4)) as u32),
        port: be_value(s.subrange(4, 6)) as u16,
    }
}

pub proof fn lemma_addr_bytes_len(a: SocketAddr)
    ensures
        addr_bytes(a).len() == (if a.is_v4() { 6int } else { 18int }),
{
    match a.ip {
        IpAddr::V4(v) => lemma_be_bytes_len(v as nat, 4),
        IpAddr::V6(v) => lemma_be_bytes_len(v as nat, 16),
    }
    lemma_be_bytes_len(a.port as nat, 2);
}

/// Decoding the bytes of an IPv4 address gives the address back.
pub proof fn lemma_addr_roundtrip(a: SocketAddr)
    requires
        a.is_v4(),
    ensures
        addr_of_bytes(addr_bytes(a)) == a,
{
    let v = a.ip->V4_0;
    lemma_be_bytes_len(v as nat, 4);
    lemma_be_bytes_len(a.port as nat, 2);
    let s = addr_bytes(a);
    assert(s.subrange(0, 4) =~= be_bytes(v as nat, 4));
    assert(s.subrange(4, 6) =~= be_bytes(a.port as nat, 2));
    lemma_be_value_of_bytes(v as nat, 4);
    lemma_be_value_of_bytes(a.port as nat, 2);
    assert(byte_pow(4) == 0x1_0000_0000) by {
        reveal_with_fuel(byte_pow, 5);
    }
    assert(byte_pow(2) == 0x1_0000) by {
        reveal_with_fuel(byte_pow, 3);
    }
}

/// Encoding the address that six bytes denote gives those bytes back.
pub proof fn lemma_addr_bytes_of_wire(s: Seq<u8>)
    requires
        s.len() == 6,
    ensures
        addr_bytes(addr_of_bytes(s)) == s,
{
    let a = addr_of_bytes(s);
    lemma_be_value_bound(s.subrange(0, 4));
    lemma_be_value_bound(s.subrange(4, 6));
    assert(byte_pow(4) == 0x1_0000_0000) by {
        reveal_with_fuel(byte_pow, 5);
    }
    assert(byte_pow(2) == 0x1_0000) by {
        reveal_with_fuel(byte_pow, 3);
    }
    lemma_be_bytes_of_value(s.subrange(0, 4));
    lemma_be_bytes_of_value(s.subrange(4, 6));
    assert(addr_bytes(a) =~= s);
}

/// Appends the wire form of an address.
pub fn addr_to_bytes(addr: SocketAddr) -> (bytes: Vec<u8>)
    ensures
        bytes@ == addr_bytes(addr),
{
    let mut bytes = Vec::new();
    match addr.ip {
        IpAddr::V4(v) => push_be(&mut bytes, v as u128, 4),
        IpAddr::V6(v) => push_be(&mut bytes, v, 16),
    }
    push_be(&mut bytes, addr.port as u128, 2);
    proof {
        assert(bytes@ =~= addr_bytes(addr));
    }
    bytes
}

/// The checksum contribution of an address, with 32-bit wrap-around.
pub fn sum_addr(addr: SocketAddr) -> (sum: u32)
    ensures
        sum == addr_sum(addr),
{
    let value: u32 = match addr.ip {
        IpAddr::V4(v) => v,
        IpAddr::V6(v) => (v % 0x1_0000_0000) as u32,
    };
    value.wrapping_add(addr.port as u32)
}

/// Reads an IPv4 address at `*start` and moves `*start` past its six bytes.
pub fn addr_from_bytes(bytes: &[u8], start: &mut usize) -> (addr: SocketAddr)
    requires
        *old(start) + 6 <= bytes@.len(),
    ensures
        *final(start) == *old(start) + 6,
        addr == addr_of_bytes(bytes@.subrange(*old(start) as int, *old(start) + 6)),
{
    let len = bytes.len();
    assert(len == bytes@.len());
    let s = *start;
    let ip = read_be(bytes, s, 4);
    let port = read_be(bytes, s + 4, 2);
    proof {
        let w = bytes@.subrange(s as int, s + 6);
        assert(w.subrange(0, 4) =~= bytes@.subrange(s as int, s + 4));
        assert(w.subrange(4, 6) =~= bytes@.subrange(s + 4, s + 6));
        lemma_be_value_bound(w.subrange(0, 4));
        lemma_be_value_bound(w.subrange(4, 6));
        assert(byte_pow(4) == 0x1_0000_0000) by {
            reveal_with_fuel(byte_pow, 5);
        }
        assert(byte_pow(2) == 0x1_0000) by {
            reveal_with_fuel(byte_pow, 3);
        }
    }
    *start = s + 6;
    SocketAddr { ip: IpAddr::V4(ip as u32), port: port as u16 }
}

/// Reads a big-endian `u32` at `*start` and moves `*start` past its four bytes.
pub fn u32_from_bytes(bytes: &[u8], start: &mut usize) -> (v: u32)
    requires
        *old(start) + 4 <= bytes@.len(),
    ensures
        *final(start) == *old(start) + 4,
        v as nat == be_value(bytes@.subrange(*old(start) as int, *old(start) + 4)),
{
    let len = bytes.len();
    assert(len == bytes@.len());
    let s = *start;
    let v = read_be(bytes, s, 4);
    proof {
        lemma_be_value_bound(bytes@.subrange(s as int, s + 4));
        assert(byte_pow(4) == 0x1_0000_0000) by {
            reveal_with_fuel(byte_pow, 5);
        }
    }
    *start = s + 4;
    v as u32
}

} // verus!
