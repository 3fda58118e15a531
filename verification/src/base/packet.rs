//! The 27-byte header with an origin, and its packets.
use vstd::prelude::*;
use crate::addr::{
    addr_bytes, addr_from_bytes, addr_of_bytes, addr_sum, addr_to_bytes, lemma_addr_bytes_len,
    lemma_addr_bytes_of_wire, lemma_addr_roundtrip, sum_addr, u32_from_bytes, SocketAddr,
};
use crate::wire::{
    byte_sum, be_bytes, be_value, byte_pow, lemma_be_bytes_len, lemma_be_bytes_of_value,
    lemma_be_value_bound, lemma_be_value_of_bytes, push_be, wrap32, wrapping_accumulate,
};
use crate::base::flags::{Flags, ACK, EMP, GSP, LST};
use vstd::slice::{slice_subrange, slice_to_vec};

verus! {

/// The size of a header on the wire.
pub const HEADER_SIZE: usize = 27;

#[derive(Clone, Copy, Debug)]
pub struct Header {
    pub src_addr: SocketAddr,
    pub dst_addr: SocketAddr,
    pub origin: SocketAddr,
    pub seq_num: u32,
    pub flags: Flags,
    pub checksum: u32,
}

/// The checksum of a header: the sum, modulo 2^32, of its three addresses,
/// its sequence number and its flag byte. The checksum field does not count.
pub open spec fn header_sum(h: Header) -> nat {
    wrap32(
        addr_sum(h.src_addr) + addr_sum(h.dst_addr) + addr_sum(h.origin) + h.seq_num as nat
            + h.flags.value as nat,
    )
}

/// A header on the wire: three addresses, the sequence number (4 bytes),
/// the flag byte and the checksum (4 bytes), numbers big-endian.
pub open spec fn header_bytes(h: Header) -> Seq<u8> {
    addr_bytes(h.src_addr) + addr_bytes(h.dst_addr) + addr_bytes(h.origin) + be_bytes(
        h.seq_num as nat,
        4,
    ) + seq![h.flags.value] + be_bytes(h.checksum as nat, 4)
}

/// The header that 27 bytes denote.
pub open spec fn header_of_bytes(s: Seq<u8>) -> Header {
    Header {
        src_addr: addr_of_bytes(s.subrange(0, 6)),
        dst_addr: addr_of_bytes(s.subrange(6, 12)),
        origin: addr_of_bytes(s.subrange(12, 18)),
        seq_num: be_value(s.subrange(18, 22)) as u32,
        flags: Flags { value: s[22] },
        checksum: be_value(s.subrange(23, 27)) as u32,
    }
}

/// The acknowledgement of a header: addresses swapped, ACK added, origin and
/// sequence number kept; its checksum is one more than the checksum of the
/// acknowledged header without data.
pub open spec fn ack_of(h: Header) -> Header {
    Header {
        src_addr: h.dst_addr,
        dst_addr: h.src_addr,
        origin: h.origin,
        seq_num: h.seq_num,
        flags: Flags { value: h.flags.value | ACK },
        checksum: (packet_sum(h, Seq::empty()) + 1) as u32,
    }
}

impl Header {
    /// All three addresses are IPv4, the only kind a header can carry back.
    pub open spec fn is_v4(&self) -> bool {
        self.src_addr.is_v4() && self.dst_addr.is_v4() && self.origin.is_v4()
    }

    pub fn new(
        src_addr: SocketAddr,
        dst_addr: SocketAddr,
        origin: SocketAddr,
        seq_num: u32,
        flags: Flags,
        checksum: u32,
    ) -> (res: Header)
        ensures
            res == (Header { src_addr, dst_addr, origin, seq_num, flags, checksum }),
    {
        Header { src_addr, dst_addr, origin, seq_num, flags, checksum }
    }

    /// The acknowledgement of this header.
    pub fn get_ack(&self) -> (ack: Header)
        requires
            packet_sum(*self, Seq::empty()) < u32::MAX,
        ensures
            ack == ack_of(*self),
    {
        let flags = self.flags | Flags { value: ACK };
        let empty: Vec<u8> = Vec::new();
        let sum = Packet::checksum(self, &empty);
        Header {
            src_addr: self.dst_addr,
            dst_addr: self.src_addr,
            origin: self.origin,
            seq_num: self.seq_num,
            flags,
            checksum: sum + 1,
        }
    }

    /// The checksum of `header`, the checksum field left out.
    pub fn checksum(header: &Header) -> (sum: u32)
        ensures
            sum == header_sum(*header),
    {
        let a = sum_addr(header.src_addr);
        let b = sum_addr(header.dst_addr);
        let c = sum_addr(header.origin);
        let mut sum: u32 = 0;
        sum = wrapping_accumulate(sum, a, Ghost(0));
        sum = wrapping_accumulate(sum, b, Ghost(a as nat));
        sum = wrapping_accumulate(sum, c, Ghost(a as nat + b as nat));
        sum = wrapping_accumulate(sum, header.seq_num, Ghost(a as nat + b as nat + c as nat));
        sum = wrapping_accumulate(sum, header.flags.value as u32, Ghost(a as nat + b as nat + c as nat + header.seq_num as nat));
        sum
    }

    pub fn is_last(&self) -> (res: bool)
        ensures
            res == (self.flags.value & LST != 0),
    {
        self.flags.is_set(Flags { value: LST })
    }

    pub fn is_ack(&self) -> (res: bool)
        ensures
            res == (self.flags.value & ACK != 0),
    {
        self.flags.is_set(Flags { value: ACK })
    }

    pub fn must_gossip(&self) -> (res: bool)
        ensures
            res == (self.flags.value & GSP != 0),
    {
        self.flags.is_set(Flags { value: GSP })
    }

    /// The header on the wire.
    pub fn to_bytes(&self) -> (bytes: Vec<u8>)
        ensures
            bytes@ == header_bytes(*self),
    {
        let mut bytes = Vec::new();
        let src = addr_to_bytes(self.src_addr);
        bytes.extend_from_slice(src.as_slice());
        let dst = addr_to_bytes(self.dst_addr);
        bytes.extend_from_slice(dst.as_slice());
        let origin = addr_to_bytes(self.origin);
        bytes.extend_from_slice(origin.as_slice());
        push_be(&mut bytes, self.seq_num as u128, 4);
        bytes.push(self.flags.value);
        push_be(&mut bytes, self.checksum as u128, 4);
        proof {
            assert(bytes@ =~= header_bytes(*self));
        }
        bytes
    }

    /// Reads a header from the first 27 bytes of `bytes`.
    fn read(bytes: &[u8]) -> (h: Header)
        requires
            bytes@.len() >= HEADER_SIZE,
        ensures
            h == header_of_bytes(bytes@.subrange(0, HEADER_SIZE as int)),
    {
        let mut start: usize = 0;
        let src_addr = addr_from_bytes(bytes, &mut start);
        let dst_addr = addr_from_bytes(bytes, &mut start);
        let origin = addr_from_bytes(bytes, &mut start);
        let seq_num = u32_from_bytes(bytes, &mut start);
        let flags = Flags::from(bytes[start]);
        start = start + 1;
        let checksum = u32_from_bytes(bytes, &mut start);
        proof {
            let s = bytes@.subrange(0, HEADER_SIZE as int);
            assert(s.subrange(0, 6) =~= bytes@.subrange(0, 6));
            assert(s.subrange(6, 12) =~= bytes@.subrange(6, 12));
            assert(s.subrange(12, 18) =~= bytes@.subrange(12, 18));
            assert(s.subrange(18, 22) =~= bytes@.subrange(18, 22));
            assert(s.subrange(23, 27) =~= bytes@.subrange(23, 27));
        }
        Header::new(src_addr, dst_addr, origin, seq_num, flags, checksum)
    }

    /// The header that 27 bytes hold.
    pub fn from_bytes(bytes: [u8; 27]) -> (h: Header)
        ensures
            h == header_of_bytes(bytes@),
    {
        let h = Header::read(bytes.as_slice());
        proof {
            assert(bytes@.subrange(0, HEADER_SIZE as int) =~= bytes@);
        }
        h
    }
}

/// An IPv4 header takes 27 bytes on the wire.
pub proof fn lemma_header_bytes_len(h: Header)
    ensures
        header_bytes(h).len() == 27 + (if h.src_addr.is_v4() { 0int } else { 12 }) + (
        if h.dst_addr.is_v4() {
            0int
        } else {
            12
        }) + (if h.origin.is_v4() { 0int } else { 12 }),
{
    lemma_addr_bytes_len(h.src_addr);
    lemma_addr_bytes_len(h.dst_addr);
    lemma_addr_bytes_len(h.origin);
    lemma_be_bytes_len(h.seq_num as nat, 4);
    lemma_be_bytes_len(h.checksum as nat, 4);
}

/// Reading back the bytes of a header whose addresses are IPv4 gives the header.
pub proof fn lemma_header_roundtrip(h: Header)
    requires
        h.is_v4(),
    ensures
        header_bytes(h).len() == HEADER_SIZE,
        header_of_bytes(header_bytes(h)) == h,
{
    lemma_header_bytes_len(h);
    lemma_addr_bytes_len(h.src_addr);
    lemma_addr_bytes_len(h.dst_addr);
    lemma_addr_bytes_len(h.origin);
    lemma_be_bytes_len(h.seq_num as nat, 4);
    lemma_be_bytes_len(h.checksum as nat, 4);
    let s = header_bytes(h);
    assert(s.subrange(0, 6) =~= addr_bytes(h.src_addr));
    assert(s.subrange(6, 12) =~= addr_bytes(h.dst_addr));
    assert(s.subrange(12, 18) =~= addr_bytes(h.origin));
    assert(s.subrange(18, 22) =~= be_bytes(h.seq_num as nat, 4));
    assert(s.subrange(23, 27) =~= be_bytes(h.checksum as nat, 4));
    lemma_addr_roundtrip(h.src_addr);
    lemma_addr_roundtrip(h.dst_addr);
    lemma_addr_roundtrip(h.origin);
    lemma_be_value_of_bytes(h.seq_num as nat, 4);
    lemma_be_value_of_bytes(h.checksum as nat, 4);
    assert(byte_pow(4) == 0x1_0000_0000) by {
        reveal_with_fuel(byte_pow, 5);
    }
}

/// Writing out the header that 27 bytes denote gives the bytes back.
pub proof fn lemma_header_bytes_of_wire(s: Seq<u8>)
    requires
        s.len() == HEADER_SIZE,
    ensures
        header_bytes(header_of_bytes(s)) == s,
{
    let h = header_of_bytes(s);
    lemma_addr_bytes_of_wire(s.subrange(0, 6));
    lemma_addr_bytes_of_wire(s.subrange(6, 12));
    lemma_addr_bytes_of_wire(s.subrange(12, 18));
    lemma_be_value_bound(s.subrange(18, 22));
    lemma_be_value_bound(s.subrange(23, 27));
    assert(byte_pow(4) == 0x1_0000_0000) by {
        reveal_with_fuel(byte_pow, 5);
    }
    lemma_be_bytes_of_value(s.subrange(18, 22));
    lemma_be_bytes_of_value(s.subrange(23, 27));
    assert(header_bytes(h) =~= s);
}


/// The size of the receive buffer, the largest packet on the wire.
pub const BUFFER_SIZE: usize = 1024;

/// How many message bytes one packet carries at most.
pub const CHUNK_SIZE: usize = 997;

#[derive(Clone, Debug)]
pub struct Packet {
    pub header: Header,
    pub data: Vec<u8>,
}

/// The flag byte that the three booleans of a packet select.
pub open spec fn make_flags(is_last: bool, is_ack: bool, gossip: bool) -> u8 {
    let f = if is_last { EMP | LST } else { EMP };
    let f = if is_ack { f | ACK } else { f };
    if gossip { f | GSP } else { f }
}

/// The checksum of a packet: the header's checksum plus every data byte, modulo 2^32.
pub open spec fn packet_sum(h: Header, data: Seq<u8>) -> nat {
    wrap32(header_sum(h) + byte_sum(data))
}

/// A packet whose checksum field matches its contents.
pub open spec fn is_valid(p: Packet) -> bool {
    p.header.checksum == packet_sum(p.header, p.data@)
}

/// The header of a fresh packet, checksum included.
pub open spec fn fresh_header(
    src_addr: SocketAddr,
    dst_addr: SocketAddr,
    origin: SocketAddr,
    seq_num: u32,
    flags: u8,
    data: Seq<u8>,
) -> Header {
    let h = Header { src_addr, dst_addr, origin, seq_num, flags: Flags { value: flags }, checksum: 0 };
    Header { checksum: packet_sum(h, data) as u32, ..h }
}

/// The bytes of a packet on the wire.
pub open spec fn packet_bytes(p: Packet) -> Seq<u8> {
    header_bytes(p.header) + p.data@
}

/// How many packets a message of `len` bytes is cut into.
pub open spec fn chunk_count(len: nat) -> nat {
    ((len + 996) / 997) as nat
}

/// The `i`-th piece of a message.
pub open spec fn chunk(data: Seq<u8>, i: int) -> Seq<u8> {
    let start = i * CHUNK_SIZE;
    let end = if data.len() - start < CHUNK_SIZE { data.len() as int } else { start + CHUNK_SIZE };
    data.subrange(start, end)
}

/// The data of a sequence of packets, one after the other.
pub open spec fn concat_data(ps: Seq<Packet>) -> Seq<u8>
    decreases ps.len(),
{
    if ps.len() == 0 {
        Seq::empty()
    } else {
        concat_data(ps.drop_last()) + ps.last().data@
    }
}

/// The `i`-th of the packets that a message is cut into.
pub open spec fn is_message_packet(
    p: Packet,
    src_addr: SocketAddr,
    dst_addr: SocketAddr,
    origin: SocketAddr,
    data: Seq<u8>,
    seq_num: u32,
    is_gossip: bool,
    i: int,
) -> bool {
    let last = i == chunk_count(data.len()) - 1;
    &&& p.data@ == chunk(data, i)
    &&& p.header == fresh_header(
        src_addr,
        dst_addr,
        origin,
        (seq_num + i) as u32,
        make_flags(last, false, is_gossip),
        chunk(data, i),
    )
}

impl Packet {
    pub fn new(
        src_addr: SocketAddr,
        dst_addr: SocketAddr,
        origin: SocketAddr,
        seq_num: u32,
        is_last: bool,
        is_ack: bool,
        gossip: bool,
        data: Vec<u8>,
    ) -> (p: Packet)
        ensures
            p.data@ == data@,
            p.header == fresh_header(
                src_addr,
                dst_addr,
                origin,
                seq_num,
                make_flags(is_last, is_ack, gossip),
                data@,
            ),
    {
        let mut flags = Flags { value: EMP };
        if is_last {
            flags = flags | Flags { value: LST };
        }
        if is_ack {
            flags = flags | Flags { value: ACK };
        }
        if gossip {
            flags = flags | Flags { value: GSP };
        }
        let checksum = Packet::checksum(&Header::new(src_addr, dst_addr, origin, seq_num, flags, 0), &data);
        let header = Header::new(src_addr, dst_addr, origin, seq_num, flags, checksum);
        Packet { header, data }
    }

    /// The acknowledgement of this packet: the acknowledged header and no data.
    pub fn get_ack(&self) -> (ack: Packet)
        requires
            packet_sum(self.header, Seq::empty()) < u32::MAX,
        ensures
            ack.header == ack_of(self.header),
            ack.data@ == Seq::<u8>::empty(),
    {
        let ack_header = self.header.get_ack();
        Packet { header: ack_header, data: Vec::new() }
    }

    /// The packet on the wire: its header, then its data.
    pub fn to_bytes(&self) -> (bytes: Vec<u8>)
        ensures
            bytes@ == packet_bytes(*self),
    {
        let mut bytes = self.header.to_bytes();
        bytes.extend_from_slice(self.data.as_slice());
        proof {
            assert(bytes@ =~= packet_bytes(*self));
        }
        bytes
    }

    /// The packet held in the first `data_size` bytes of a receive buffer.
    pub fn from_bytes(bytes: [u8; 1024], data_size: usize) -> (p: Packet)
        requires
            HEADER_SIZE <= data_size <= BUFFER_SIZE,
        ensures
            p.header == header_of_bytes(bytes@.subrange(0, HEADER_SIZE as int)),
            p.data@ == bytes@.subrange(HEADER_SIZE as int, data_size as int),
    {
        let all = bytes.as_slice();
        let header = Header::read(all);
        let data = slice_to_vec(slice_subrange(all, HEADER_SIZE, data_size));
        Packet { header, data }
    }

    /// The checksum of a header followed by `data`, the checksum field left out.
    pub fn checksum(header: &Header, data: &Vec<u8>) -> (sum: u32)
        ensures
            sum == packet_sum(*header, data@),
    {
        let mut sum = Header::checksum(header);
        let mut i: usize = 0;
        while i < data.len()
            invariant
                i <= data@.len(),
                sum == wrap32(header_sum(*header) + byte_sum(data@.subrange(0, i as int))),
            decreases data@.len() - i,
        {
            let byte = data[i];
            proof {
                let s = data@.subrange(0, i + 1);
                assert(s.drop_last() =~= data@.subrange(0, i as int));
            }
            sum = wrapping_accumulate(
                sum,
                byte as u32,
                Ghost(header_sum(*header) + byte_sum(data@.subrange(0, i as int))),
            );
            i = i + 1;
        }
        proof {
            assert(data@.subrange(0, data@.len() as int) =~= data@);
        }
        sum
    }

    /// Cuts a message into packets of at most `CHUNK_SIZE` bytes with consecutive
    /// sequence numbers from `seq_num`; only the final one is marked last.
    pub fn packets_from_message(
        src_addr: SocketAddr,
        dst_addr: SocketAddr,
        origin: SocketAddr,
        data: Vec<u8>,
        seq_num: u32,
        is_gossip: bool,
    ) -> (packets: Vec<Packet>)
        requires
            seq_num + chunk_count(data@.len()) <= u32::MAX + 1,
        ensures
            packets@.len() == chunk_count(data@.len()),
            forall|i: int|
                0 <= i < packets@.len() ==> is_message_packet(
                    #[trigger] packets@[i],
                    src_addr,
                    dst_addr,
                    origin,
                    data@,
                    seq_num,
                    is_gossip,
                    i,
                ),
            concat_data(packets@) == data@,
    {
        let len = data.len();
        let n = len / CHUNK_SIZE + if len % CHUNK_SIZE == 0 { 0 } else { 1 };
        assert(n == chunk_count(len as nat));
        let mut packets: Vec<Packet> = Vec::new();
        let mut i: usize = 0;
        let mut start: usize = 0;
        while i < n
            invariant
                n == chunk_count(data@.len()),
                len == data@.len(),
                i <= n,
                i < n ==> start == i * CHUNK_SIZE,
                i == n ==> start == len,
                start <= len,
                seq_num + n <= u32::MAX + 1,
                packets@.len() == i,
                forall|j: int|
                    0 <= j < i ==> is_message_packet(
                        #[trigger] packets@[j],
                        src_addr,
                        dst_addr,
                        origin,
                        data@,
                        seq_num,
                        is_gossip,
                        j,
                    ),
                concat_data(packets@) == data@.subrange(0, start as int),
            decreases n - i,
        {
            let end = if len - start < CHUNK_SIZE { len } else { start + CHUNK_SIZE };
            let piece = slice_to_vec(slice_subrange(data.as_slice(), start, end));
            let p = Packet::new(
                src_addr,
                dst_addr,
                origin,
                seq_num + i as u32,
                i == n - 1,
                false,
                is_gossip,
                piece,
            );
            let ghost old_packets = packets@;
            packets.push(p);
            proof {
                assert(packets@.drop_last() =~= old_packets);
                assert(data@.subrange(0, end as int) =~= data@.subrange(0, start as int) + piece@);
            }
            i = i + 1;
            start = end;
        }
        proof {
            assert(data@.subrange(0, start as int) =~= data@);
        }
        packets
    }
}

} // verus!
