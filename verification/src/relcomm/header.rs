//! The 27-byte header of every packet.
use vstd::prelude::*;
use crate::addr::{
    addr_bytes, addr_from_bytes, addr_of_bytes, addr_sum, addr_to_bytes, lemma_addr_bytes_len,
    lemma_addr_bytes_of_wire, lemma_addr_roundtrip, sum_addr, u32_from_bytes, SocketAddr,
};
use crate::wire::{
    be_bytes, be_value, byte_pow, lemma_be_bytes_len, lemma_be_bytes_of_value,
    lemma_be_value_bound, lemma_be_value_of_bytes, push_be, wrap32, wrapping_accumulate,
};
use crate::relcomm::flags::{Flags, ACK, BRD, FIN, GSP, HB, LST, SYN};

verus! {

/// The size of a header on the wire.
pub const HEADER_SIZE: usize = 27;

#[derive(Clone, Copy, Debug)]
pub struct Header {
    pub src_addr: SocketAddr,
    pub dst_addr: SocketAddr,
    pub origin: SocketAddr,
    pub seq_num: u32,
    pub flags: Flags,
    pub checksum: u32,
}

/// The checksum of a header: the sum, modulo 2^32, of its three addresses,
/// its sequence number and its flag byte. The checksum field does not count.
pub open spec fn header_sum(h: Header) -> nat {
    wrap32(
        addr_sum(h.src_addr) + addr_sum(h.dst_addr) + addr_sum(h.origin) + h.seq_num as nat
            + h.flags.value as nat,
    )
}

/// A header on the wire: three addresses, the sequence number (4 bytes),
/// the flag byte and the checksum (4 bytes), numbers big-endian.
pub open spec fn header_bytes(h: Header) -> Seq<u8> {
    addr_bytes(h.src_addr) + addr_bytes(h.dst_addr) + addr_bytes(h.origin) + be_bytes(
        h.seq_num as nat,
        4,
    ) + seq![h.flags.value] + be_bytes(h.checksum as nat, 4)
}

/// The header that 27 bytes denote.
pub open spec fn header_of_bytes(s: Seq<u8>) -> Header {
    Header {
        src_addr: addr_of_bytes(s.subrange(0, 6)),
        dst_addr: addr_of_bytes(s.subrange(6, 12)),
        origin: addr_of_bytes(s.subrange(12, 18)),
        seq_num: be_value(s.subrange(18, 22)) as u32,
        flags: Flags { value: s[22] },
        checksum: be_value(s.subrange(23, 27)) as u32,
    }
}

/// The acknowledgement of a header: addresses swapped, ACK added,
/// origin and sequence number kept, checksum recomputed.
pub open spec fn ack_of(h: Header) -> Header {
    let a = Header {
        src_addr: h.dst_addr,
        dst_addr: h.src_addr,
        origin: h.origin,
        seq_num: h.seq_num,
        flags: Flags { value: h.flags.value | ACK },
        checksum: 0,
    };
    Header { checksum: header_sum(a) as u32, ..a }
}

impl Header {
    /// All three addresses are IPv4, the only kind a header can carry back.
    pub open spec fn is_v4(&self) -> bool {
        self.src_addr.is_v4() && self.dst_addr.is_v4() && self.origin.is_v4()
    }

    pub fn new(
        src_addr: SocketAddr,
        dst_addr: SocketAddr,
        origin: SocketAddr,
        seq_num: u32,
        flags: Flags,
        checksum: u32,
    ) -> (res: Header)
        ensures
            res == (Header { src_addr, dst_addr, origin, seq_num, flags, checksum }),
    {
        Header { src_addr, dst_addr, origin, seq_num, flags, checksum }
    }

    /// The acknowledgement of this header.
    pub fn get_ack(&self) -> (ack: Header)
        ensures
            ack == ack_of(*self),
    {
        let flags = self.flags | Flags { value: ACK };
        let mut ack = Header {
            src_addr: self.dst_addr,
            dst_addr: self.src_addr,
            origin: self.origin,
            seq_num: self.seq_num,
            flags,
            checksum: 0,
        };
        ack.checksum = Header::checksum(&ack);
        ack
    }

    /// The checksum of `header`, the checksum field left out.
    pub fn checksum(header: &Header) -> (sum: u32)
        ensures
            sum == header_sum(*header),
    {
        let a = sum_addr(header.src_addr);
        let b = sum_addr(header.dst_addr);
        let c = sum_addr(header.origin);
        let mut sum: u32 = 0;
        sum = wrapping_accumulate(sum, a, Ghost(0));
        sum = wrapping_accumulate(sum, b, Ghost(a as nat));
        sum = wrapping_accumulate(sum, c, Ghost(a as nat + b as nat));
        sum = wrapping_accumulate(sum, header.seq_num, Ghost(a as nat + b as nat + c as nat));
        sum = wrapping_accumulate(sum, header.flags.value as u32, Ghost(a as nat + b as nat + c as nat + header.seq_num as nat));
        sum
    }

    pub fn is_last(&self) -> (res: bool)
        ensures
            res == (self.flags.value & LST != 0),
    {
        self.flags.is_set(Flags { value: LST })
    }

    pub fn is_ack(&self) -> (res: bool)
        ensures
            res == (self.flags.value & ACK != 0),
    {
        self.flags.is_set(Flags { value: ACK })
    }

    pub fn must_gossip(&self) -> (res: bool)
        ensures
            res == (self.flags.value & GSP != 0),
    {
        self.flags.is_set(Flags { value: GSP })
    }

    pub fn is_syn(&self) -> (res: bool)
        ensures
            res == (self.flags.value & SYN != 0),
    {
        self.flags.is_set(Flags { value: SYN })
    }

    pub fn is_fin(&self) -> (res: bool)
        ensures
            res == (self.flags.value & FIN != 0),
    {
        self.flags.is_set(Flags { value: FIN })
    }

    /// The packet belongs to a broadcast.
    pub fn is_brd(&self) -> (res: bool)
        ensures
            res == (self.flags.value & BRD != 0),
    {
        self.flags.is_set(Flags { value: BRD })
    }

    /// The packet is a heartbeat.
    pub fn is_heartbeat(&self) -> (res: bool)
        ensures
            res == (self.flags.value & HB != 0),
    {
        self.flags.is_set(Flags { value: HB })
    }

    /// The header on the wire.
    pub fn to_bytes(&self) -> (bytes: Vec<u8>)
        ensures
            bytes@ == header_bytes(*self),
    {
        let mut bytes = Vec::new();
        let src = addr_to_bytes(self.src_addr);
        bytes.extend_from_slice(src.as_slice());
        let dst = addr_to_bytes(self.dst_addr);
        bytes.extend_from_slice(dst.as_slice());
        let origin = addr_to_bytes(self.origin);
        bytes.extend_from_slice(origin.as_slice());
        push_be(&mut bytes, self.seq_num as u128, 4);
        bytes.push(self.flags.value);
        push_be(&mut bytes, self.checksum as u128, 4);
        proof {
            assert(bytes@ =~= header_bytes(*self));
        }
        bytes
    }

    /// Reads a header from the first 27 bytes of `bytes`.
    pub(crate) fn read(bytes: &[u8]) -> (h: Header)
        requires
            bytes@.len() >= HEADER_SIZE,
        ensures
            h == header_of_bytes(bytes@.subrange(0, HEADER_SIZE as int)),
    {
        let mut start: usize = 0;
        let src_addr = addr_from_bytes(bytes, &mut start);
        let dst_addr = addr_from_bytes(bytes, &mut start);
        let origin = addr_from_bytes(bytes, &mut start);
        let seq_num = u32_from_bytes(bytes, &mut start);
        let flags = Flags::from(bytes[start]);
        start = start + 1;
        let checksum = u32_from_bytes(bytes, &mut start);
        proof {
            let s = bytes@.subrange(0, HEADER_SIZE as int);
            assert(s.subrange(0, 6) =~= bytes@.subrange(0, 6));
            assert(s.subrange(6, 12) =~= bytes@.subrange(6, 12));
            assert(s.subrange(12, 18) =~= bytes@.subrange(12, 18));
            assert(s.subrange(18, 22) =~= bytes@.subrange(18, 22));
            assert(s.subrange(23, 27) =~= bytes@.subrange(23, 27));
        }
        Header::new(src_addr, dst_addr, origin, seq_num, flags, checksum)
    }

    /// The header that 27 bytes hold.
    pub fn from_bytes(bytes: [u8; 27]) -> (h: Header)
        ensures
            h == header_of_bytes(bytes@),
    {
        let h = Header::read(bytes.as_slice());
        proof {
            assert(bytes@.subrange(0, HEADER_SIZE as int) =~= bytes@);
        }
        h
    }
}

/// An IPv4 header takes 27 bytes on the wire.
pub proof fn lemma_header_bytes_len(h: Header)
    ensures
        header_bytes(h).len() == 27 + (if h.src_addr.is_v4() { 0int } else { 12 }) + (
        if h.dst_addr.is_v4() {
            0int
        } else {
            12
        }) + (if h.origin.is_v4() { 0int } else { 12 }),
{
    lemma_addr_bytes_len(h.src_addr);
    lemma_addr_bytes_len(h.dst_addr);
    lemma_addr_bytes_len(h.origin);
    lemma_be_bytes_len(h.seq_num as nat, 4);
    lemma_be_bytes_len(h.checksum as nat, 4);
}

/// Reading back the bytes of a header whose addresses are IPv4 gives the header.
pub proof fn lemma_header_roundtrip(h: Header)
    requires
        h.is_v4(),
    ensures
        header_bytes(h).len() == HEADER_SIZE,
        header_of_bytes(header_bytes(h)) == h,
{
    lemma_header_bytes_len(h);
    lemma_addr_bytes_len(h.src_addr);
    lemma_addr_bytes_len(h.dst_addr);
    lemma_addr_bytes_len(h.origin);
    lemma_be_bytes_len(h.seq_num as nat, 4);
    lemma_be_bytes_len(h.checksum as nat, 4);
    let s = header_bytes(h);
    assert(s.subrange(0, 6) =~= addr_bytes(h.src_addr));
    assert(s.subrange(6, 12) =~= addr_bytes(h.dst_addr));
    assert(s.subrange(12, 18) =~= addr_bytes(h.origin));
    assert(s.subrange(18, 22) =~= be_bytes(h.seq_num as nat, 4));
    assert(s.subrange(23, 27) =~= be_bytes(h.checksum as nat, 4));
    lemma_addr_roundtrip(h.src_addr);
    lemma_addr_roundtrip(h.dst_addr);
    lemma_addr_roundtrip(h.origin);
    lemma_be_value_of_bytes(h.seq_num as nat, 4);
    lemma_be_value_of_bytes(h.checksum as nat, 4);
    assert(byte_pow(4) == 0x1_0000_0000) by {
        reveal_with_fuel(byte_pow, 5);
    }
}

/// Writing out the header that 27 bytes denote gives the bytes back.
pub proof fn lemma_header_bytes_of_wire(s: Seq<u8>)
    requires
        s.len() == HEADER_SIZE,
    ensures
        header_bytes(header_of_bytes(s)) == s,
{
    let h = header_of_bytes(s);
    lemma_addr_bytes_of_wire(s.subrange(0, 6));
    lemma_addr_bytes_of_wire(s.subrange(6, 12));
    lemma_addr_bytes_of_wire(s.subrange(12, 18));
    lemma_be_value_bound(s.subrange(18, 22));
    lemma_be_value_bound(s.subrange(23, 27));
    assert(byte_pow(4) == 0x1_0000_0000) by {
        reveal_with_fuel(byte_pow, 5);
    }
    lemma_be_bytes_of_value(s.subrange(18, 22));
    lemma_be_bytes_of_value(s.subrange(23, 27));
    assert(header_bytes(h) =~= s);
}

/// The acknowledgement of an acknowledgement has the first addresses back,
/// the same origin, sequence number and flags with ACK set.
pub proof fn lemma_ack_of_ack(h: Header)
    ensures
        ack_of(ack_of(h)).src_addr == h.src_addr,
        ack_of(ack_of(h)).dst_addr == h.dst_addr,
        ack_of(ack_of(h)).origin == h.origin,
        ack_of(ack_of(h)).seq_num == h.seq_num,
        ack_of(ack_of(h)).flags == ack_of(h).flags,
{
    let v = h.flags.value;
    assert((v | ACK) | ACK == v | ACK) by (bit_vector);
}

/// An acknowledgement carries a checksum that matches its contents, and the ACK flag.
pub proof fn lemma_ack_is_valid(h: Header)
    ensures
        ack_of(h).checksum == header_sum(ack_of(h)),
        ack_of(h).flags.value & ACK != 0,
{
    let v = h.flags.value;
    assert((v | ACK) & ACK != 0) by (bit_vector);
    assert(header_sum(ack_of(h)) < 0x1_0000_0000);
}

} // verus!
