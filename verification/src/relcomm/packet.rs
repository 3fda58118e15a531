//! A packet: a header and a piece of a message.
use vstd::prelude::*;
use vstd::slice::{slice_subrange, slice_to_vec};
use crate::addr::SocketAddr;
use crate::relcomm::node::Node;
use crate::wire::{byte_sum, wrap32, wrapping_accumulate};
use crate::text::{decimal, push_decimal};
use crate::relcomm::flags::{Flags, ACK, FIN, GSP, HB, LST, SYN};
use crate::relcomm::header::{header_bytes, header_of_bytes, header_sum, Header, HEADER_SIZE};

verus! {

/// The size of the receive buffer, the largest packet on the wire.
pub const BUFFER_SIZE: usize = 1024;

/// How many message bytes one packet carries at most.
pub const CHUNK_SIZE: usize = 997;

#[verifier::external_type_specification]
#[verifier::external_body]
pub struct ExTryFromSliceError(std::array::TryFromSliceError);

#[derive(Clone, Debug)]
pub struct Packet {
    pub header: Header,
    pub data: Vec<u8>,
}

/// The flag byte that the five booleans of a packet select.
pub open spec fn make_flags(is_last: bool, is_ack: bool, gossip: bool, is_syn: bool, is_fin: bool) -> u8 {
    (if is_last { LST } else { 0u8 }) | (if is_ack { ACK } else { 0u8 }) | (if gossip {
        GSP
    } else {
        0u8
    }) | (if is_syn { SYN } else { 0u8 }) | (if is_fin { FIN } else { 0u8 })
}

/// The checksum of a packet: the header's checksum plus every data byte, modulo 2^32.
pub open spec fn packet_sum(h: Header, data: Seq<u8>) -> nat {
    wrap32(header_sum(h) + byte_sum(data))
}

/// A packet whose checksum field matches its contents.
pub open spec fn is_valid(p: Packet) -> bool {
    p.header.checksum == packet_sum(p.header, p.data@)
}

/// The header of a fresh packet, checksum included.
pub open spec fn fresh_header(
    src_addr: SocketAddr,
    dst_addr: SocketAddr,
    origin: SocketAddr,
    seq_num: u32,
    flags: u8,
    data: Seq<u8>,
) -> Header {
    let h = Header { src_addr, dst_addr, origin, seq_num, flags: Flags { value: flags }, checksum: 0 };
    Header { checksum: packet_sum(h, data) as u32, ..h }
}

/// The bytes of a packet on the wire.
pub open spec fn packet_bytes(p: Packet) -> Seq<u8> {
    header_bytes(p.header) + p.data@
}

/// How many packets a message of `len` bytes is cut into.
pub open spec fn chunk_count(len: nat) -> nat {
    ((len + 996) / 997) as nat
}

/// The `i`-th piece of a message.
pub open spec fn chunk(data: Seq<u8>, i: int) -> Seq<u8> {
    let start = i * CHUNK_SIZE;
    let end = if data.len() - start < CHUNK_SIZE { data.len() as int } else { start + CHUNK_SIZE };
    data.subrange(start, end)
}

/// The data of a sequence of packets, one after the other.
pub open spec fn concat_data(ps: Seq<Packet>) -> Seq<u8>
    decreases ps.len(),
{
    if ps.len() == 0 {
        Seq::empty()
    } else {
        concat_data(ps.drop_last()) + ps.last().data@
    }
}

/// The `i`-th of the packets that a message is cut into.
pub open spec fn is_message_packet(
    p: Packet,
    src_addr: SocketAddr,
    dst_addr: SocketAddr,
    origin: SocketAddr,
    data: Seq<u8>,
    seq_num: u32,
    is_gossip: bool,
    i: int,
) -> bool {
    let last = i == chunk_count(data.len()) - 1;
    &&& p.data@ == chunk(data, i)
    &&& p.header == fresh_header(
        src_addr,
        dst_addr,
        origin,
        (seq_num + i) as u32,
        make_flags(last, false, is_gossip, false, false),
        chunk(data, i),
    )
}

/// The text of a packet: its sequence number and the ports of its sender,
/// its receiver and its origin.
pub open spec fn packet_text(p: Packet) -> Seq<char> {
    "Packet "@ + decimal(p.header.seq_num as nat) + ": "@ + decimal(p.header.src_addr.port as nat) + " -> "@
        + decimal(p.header.dst_addr.port as nat) + ", origin: "@ + decimal(p.header.origin.port as nat)
}

impl Packet {
    /// "Packet <seq>: <src port> -> <dst port>, origin: <origin port>".
    pub fn to_string(&self) -> (s: String)
        ensures
            s@ == packet_text(*self),
    {
        let mut s = String::new();
        s.append("Packet ");
        push_decimal(&mut s, self.header.seq_num as u64);
        s.append(": ");
        push_decimal(&mut s, self.header.src_addr.port as u64);
        s.append(" -> ");
        push_decimal(&mut s, self.header.dst_addr.port as u64);
        s.append(", origin: ");
        push_decimal(&mut s, self.header.origin.port as u64);
        proof {
            assert(s@ =~= packet_text(*self));
        }
        s
    }

    pub fn new(
        src_addr: SocketAddr,
        dst_addr: SocketAddr,
        origin: SocketAddr,
        seq_num: u32,
        is_last: bool,
        is_ack: bool,
        gossip: bool,
        is_syn: bool,
        is_fin: bool,
        data: Vec<u8>,
    ) -> (p: Packet)
        ensures
            p.data@ == data@,
            p.header == fresh_header(
                src_addr,
                dst_addr,
                origin,
                seq_num,
                make_flags(is_last, is_ack, gossip, is_syn, is_fin),
                data@,
            ),
    {
        let flags = is_last & Flags { value: LST } | is_ack & Flags { value: ACK } | gossip & Flags {
            value: GSP,
        } | is_syn & Flags { value: SYN } | is_fin & Flags { value: FIN };
        let mut header = Header::new(src_addr, dst_addr, origin, seq_num, flags, 0);
        let checksum = Packet::checksum(&header, &data);
        header.checksum = checksum;
        Packet { header, data }
    }

    /// The acknowledgement of this packet: the acknowledged header and no data.
    pub fn get_ack(&self) -> (ack: Packet)
        ensures
            ack.header == crate::relcomm::header::ack_of(self.header),
            ack.data@ == Seq::<u8>::empty(),
    {
        let ack_header = self.header.get_ack();
        Packet { header: ack_header, data: Vec::new() }
    }

    /// The packet that opens a connection.
    pub fn get_syn(src_addr: SocketAddr, dst_addr: SocketAddr, seq_num: u32) -> (p: Packet)
        ensures
            p.data@ == Seq::<u8>::empty(),
            p.header == fresh_header(
                src_addr,
                dst_addr,
                src_addr,
                seq_num,
                SYN,
                Seq::empty(),
            ),
    {
        let p = Packet::new(
            src_addr,
            dst_addr,
            src_addr,
            seq_num,
            false,
            false,
            false,
            true,
            false,
            Vec::new(),
        );
        proof {
            assert(make_flags(false, false, false, true, false) == SYN) by (bit_vector);
        }
        p
    }

    /// The heartbeat that `host` sends to `dst_addr`: the sequence number
    /// carries the sender's member number, which the receiver marks alive.
    pub fn heart_beat(host: &Node, dst_addr: SocketAddr) -> (p: Packet)
        ensures
            p.data@ == Seq::<u8>::empty(),
            p.header == fresh_header(host.addr, dst_addr, host.addr, host.agent_number as u32, HB, Seq::empty()),
    {
        let mut header = Header::new(host.addr, dst_addr, host.addr, host.agent_number as u32, Flags { value: HB }, 0);
        let data = Vec::new();
        header.checksum = Packet::checksum(&header, &data);
        Packet { header, data }
    }

    /// The packet on the wire: its header, then its data.
    pub fn to_bytes(&self) -> (bytes: Vec<u8>)
        ensures
            bytes@ == packet_bytes(*self),
    {
        let mut bytes = self.header.to_bytes();
        bytes.extend_from_slice(self.data.as_slice());
        proof {
            assert(bytes@ =~= packet_bytes(*self));
        }
        bytes
    }

    /// The packet held in the first `data_size` bytes of a receive buffer.
    pub fn from_bytes(bytes: [u8; 1024], data_size: usize) -> (res: Result<
        Packet,
        std::array::TryFromSliceError,
    >)
        requires
            HEADER_SIZE <= data_size <= BUFFER_SIZE,
        ensures
            res is Ok,
            res matches Ok(p) ==> p.header == header_of_bytes(bytes@.subrange(0, HEADER_SIZE as int))
                && p.data@ == bytes@.subrange(HEADER_SIZE as int, data_size as int),
    {
        let all = bytes.as_slice();
        let head = slice_subrange(all, 0, HEADER_SIZE);
        let header = Header::read(head);
        proof {
            assert(head@.subrange(0, HEADER_SIZE as int) =~= bytes@.subrange(0, HEADER_SIZE as int));
        }
        let data = slice_to_vec(slice_subrange(all, HEADER_SIZE, data_size));
        Ok(Packet { header, data })
    }

    /// The checksum of a header followed by `data`, the checksum field left out.
    pub fn checksum(header: &Header, data: &Vec<u8>) -> (sum: u32)
        ensures
            sum == packet_sum(*header, data@),
    {
        let mut sum = Header::checksum(header);
        let mut i: usize = 0;
        while i < data.len()
            invariant
                i <= data@.len(),
                sum == wrap32(header_sum(*header) + byte_sum(data@.subrange(0, i as int))),
            decreases data@.len() - i,
        {
            let byte = data[i];
            proof {
                let s = data@.subrange(0, i + 1);
                assert(s.drop_last() =~= data@.subrange(0, i as int));
            }
            sum = wrapping_accumulate(
                sum,
                byte as u32,
                Ghost(header_sum(*header) + byte_sum(data@.subrange(0, i as int))),
            );
            i = i + 1;
        }
        proof {
            assert(data@.subrange(0, data@.len() as int) =~= data@);
        }
        sum
    }

    /// Cuts a message into packets of at most `CHUNK_SIZE` bytes with consecutive
    /// sequence numbers from `seq_num`; only the final one is marked last.
    pub fn packets_from_message(
        src_addr: SocketAddr,
        dst_addr: SocketAddr,
        origin: SocketAddr,
        data: Vec<u8>,
        seq_num: u32,
        is_gossip: bool,
    ) -> (packets: Vec<Packet>)
        requires
            seq_num + chunk_count(data@.len()) <= u32::MAX + 1,
        ensures
            packets@.len() == chunk_count(data@.len()),
            forall|i: int|
                0 <= i < packets@.len() ==> is_message_packet(
                    #[trigger] packets@[i],
                    src_addr,
                    dst_addr,
                    origin,
                    data@,
                    seq_num,
                    is_gossip,
                    i,
                ),
            concat_data(packets@) == data@,
    {
        let len = data.len();
        let n = len / CHUNK_SIZE + if len % CHUNK_SIZE == 0 { 0 } else { 1 };
        assert(n == chunk_count(len as nat));
        let mut packets: Vec<Packet> = Vec::new();
        let mut i: usize = 0;
        let mut start: usize = 0;
        while i < n
            invariant
                n == chunk_count(data@.len()),
                len == data@.len(),
                i <= n,
                i < n ==> start == i * CHUNK_SIZE,
                i == n ==> start == len,
                start <= len,
                seq_num + n <= u32::MAX + 1,
                packets@.len() == i,
                forall|j: int|
                    0 <= j < i ==> is_message_packet(
                        #[trigger] packets@[j],
                        src_addr,
                        dst_addr,
                        origin,
                        data@,
                        seq_num,
                        is_gossip,
                        j,
                    ),
                concat_data(packets@) == data@.subrange(0, start as int),
            decreases n - i,
        {
            let end = if len - start < CHUNK_SIZE { len } else { start + CHUNK_SIZE };
            let piece = slice_to_vec(slice_subrange(data.as_slice(), start, end));
            let p = Packet::new(
                src_addr,
                dst_addr,
                origin,
                seq_num + i as u32,
                i == n - 1,
                false,
                is_gossip,
                false,
                false,
                piece,
            );
            let ghost old_packets = packets@;
            packets.push(p);
            proof {
                assert(packets@.drop_last() =~= old_packets);
                assert(data@.subrange(0, end as int) =~= data@.subrange(0, start as int) + piece@);
            }
            i = i + 1;
            start = end;
        }
        proof {
            assert(data@.subrange(0, start as int) =~= data@);
        }
        packets
    }
}

/// A packet built by `Packet::new` carries a checksum that matches its contents.
pub proof fn lemma_fresh_packet_is_valid(
    src_addr: SocketAddr,
    dst_addr: SocketAddr,
    origin: SocketAddr,
    seq_num: u32,
    flags: u8,
    data: Seq<u8>,
    p: Packet,
)
    requires
        p.header == fresh_header(src_addr, dst_addr, origin, seq_num, flags, data),
        p.data@ == data,
    ensures
        is_valid(p),
{
}

/// Reading a packet back from its bytes in a receive buffer gives the packet:
/// the same header (its addresses IPv4) and the same data.
pub proof fn lemma_packet_roundtrip(p: Packet, buffer: Seq<u8>, data_size: int)
    requires
        p.header.is_v4(),
        data_size == HEADER_SIZE + p.data@.len(),
        data_size <= buffer.len(),
        buffer.subrange(0, data_size) == packet_bytes(p),
    ensures
        header_of_bytes(buffer.subrange(0, HEADER_SIZE as int)) == p.header,
        buffer.subrange(HEADER_SIZE as int, data_size) == p.data@,
{
    crate::relcomm::header::lemma_header_roundtrip(p.header);
    let b = packet_bytes(p);
    assert(buffer.subrange(0, HEADER_SIZE as int) =~= b.subrange(0, HEADER_SIZE as int));
    assert(b.subrange(0, HEADER_SIZE as int) =~= header_bytes(p.header));
    assert(buffer.subrange(HEADER_SIZE as int, data_size) =~= b.subrange(HEADER_SIZE as int, data_size));
    assert(b.subrange(HEADER_SIZE as int, data_size) =~= p.data@);
}

/// Every packet that a message is cut into is valid, carries the message's
/// origin, and is marked last exactly when it is the final one.
pub proof fn lemma_message_packets(
    p: Packet,
    src_addr: SocketAddr,
    dst_addr: SocketAddr,
    origin: SocketAddr,
    data: Seq<u8>,
    seq_num: u32,
    is_gossip: bool,
    i: int,
)
    requires
        is_message_packet(p, src_addr, dst_addr, origin, data, seq_num, is_gossip, i),
    ensures
        is_valid(p),
        p.header.origin == origin,
        p.header.seq_num == (seq_num + i) as u32,
        (p.header.flags.value & LST != 0) == (i == chunk_count(data.len()) - 1),
        (p.header.flags.value & ACK != 0) == false,
        (p.header.flags.value & GSP != 0) == is_gossip,
{
    let last = i == chunk_count(data.len()) - 1;
    let v = make_flags(last, false, is_gossip, false, false);
    let a: u8 = if last { 2u8 } else { 0u8 };
    let b: u8 = if is_gossip { 4u8 } else { 0u8 };
    assert(v == a | 0u8 | b | 0u8 | 0u8);
    assert((a == 2u8 || a == 0u8) && (b == 4u8 || b == 0u8) ==> (((a | 0u8 | b | 0u8 | 0u8) & 2u8
        != 0) == (a == 2u8) && ((a | 0u8 | b | 0u8 | 0u8) & 1u8 != 0) == false && ((a | 0u8 | b
        | 0u8 | 0u8) & 4u8 != 0) == (b == 4u8))) by (bit_vector);
}

} // verus!
