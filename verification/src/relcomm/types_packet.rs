//! Typed packets: a data header with a piece of a message, or an acknowledgement,
//! and the reading of any of them from the bytes that arrive.
use vstd::prelude::*;
use vstd::slice::{slice_subrange, slice_to_vec};
use crate::addr::SocketAddr;
use crate::wire::{byte_sum, wrap32, wrapping_accumulate};
use crate::relcomm::types_header::{
    addr_values, Ack, AckBrd, DataHeader, HBrd, HLRq, HSnd, Header, IsAck, ACK, ACK_BD, BD, LREQ, SD,
};

verus! {

/// A data header and the piece of a message that it carries.
#[derive(Clone, Debug)]
pub struct DataPkt<H: DataHeader> {
    pub header: H,
    pub data: Vec<u8>,
}

/// What every packet offers: its checksum, its wire form and its reading.
pub trait Packet: Sized {
    type Header: Header;

    /// The checksum that the packet's contents give.
    spec fn pkt_sum(&self) -> nat;

    /// The wire form, kind byte first.
    spec fn pkt_wire(&self) -> Seq<u8>;

    /// How many bytes a reading needs at least, kind byte left out.
    spec fn min_len() -> nat;

    /// This packet is what `bytes`, kind byte left out, denote.
    spec fn read_from(&self, bytes: Seq<u8>) -> bool;

    fn checksum(pkt: &Self) -> (sum: u32)
        ensures
            sum == pkt.pkt_sum(),
    ;

    fn from_bytes(bytes: Vec<u8>) -> (pkt: Self)
        requires
            bytes@.len() >= Self::min_len(),
        ensures
            pkt.read_from(bytes@),
    ;

    fn to_bytes(&self) -> (bytes: Vec<u8>)
        ensures
            bytes@ == self.pkt_wire(),
    ;
}

impl<A: IsAck> Packet for A {
    type Header = A;

    open spec fn pkt_sum(&self) -> nat {
        self.sum_spec()
    }

    open spec fn pkt_wire(&self) -> Seq<u8> {
        self.wire()
    }

    open spec fn min_len() -> nat {
        A::size_spec()
    }

    open spec fn read_from(&self, bytes: Seq<u8>) -> bool {
        *self == A::parse(bytes)
    }

    fn checksum(pkt: &A) -> (sum: u32) {
        <A as Header>::checksum(pkt)
    }

    fn from_bytes(bytes: Vec<u8>) -> (pkt: A) {
        <A as Header>::from_bytes(bytes)
    }

    fn to_bytes(&self) -> (bytes: Vec<u8>) {
        <A as Header>::to_bytes(self)
    }
}

/// The sum of the bytes of `data`, then of `sum` more, with 32-bit wrap-around.
fn data_sum(data: &Vec<u8>) -> (sum: u32)
    ensures
        sum == wrap32(byte_sum(data@)),
{
    let mut sum: u32 = 0;
    let mut i: usize = 0;
    while i < data.len()
        invariant
            i <= data@.len(),
            sum == wrap32(byte_sum(data@.subrange(0, i as int))),
        decreases data@.len() - i,
    {
        let byte = data[i];
        proof {
            assert(data@.subrange(0, i + 1).drop_last() =~= data@.subrange(0, i as int));
        }
        sum = wrapping_accumulate(sum, byte as u32, Ghost(byte_sum(data@.subrange(0, i as int))));
        i = i + 1;
    }
    proof {
        assert(data@.subrange(0, data@.len() as int) =~= data@);
    }
    sum
}

impl<H: DataHeader> Packet for DataPkt<H> {
    type Header = H;

    open spec fn pkt_sum(&self) -> nat {
        wrap32(byte_sum(self.data@) + self.header.sum_spec())
    }

    open spec fn pkt_wire(&self) -> Seq<u8> {
        self.header.wire() + self.data@
    }

    open spec fn min_len() -> nat {
        H::size_spec()
    }

    open spec fn read_from(&self, bytes: Seq<u8>) -> bool {
        &&& self.header == H::parse(bytes)
        &&& self.data@ == bytes.skip(H::size_spec() as int)
    }

    fn checksum(pkt: &DataPkt<H>) -> (sum: u32) {
        let d = data_sum(&pkt.data);
        let h = H::checksum(&pkt.header);
        wrapping_accumulate(d, h, Ghost(byte_sum(pkt.data@)))
    }

    fn from_bytes(bytes: Vec<u8>) -> (pkt: DataPkt<H>) {
        let n = H::size();
        let all = bytes.as_slice();
        let data = slice_to_vec(slice_subrange(all, n, bytes.len()));
        proof {
            assert(data@ =~= bytes@.skip(H::size_spec() as int));
        }
        let header = H::from_bytes(bytes);
        DataPkt { header, data }
    }

    fn to_bytes(&self) -> (bytes: Vec<u8>) {
        let mut bytes = self.header.to_bytes();
        bytes.extend_from_slice(self.data.as_slice());
        bytes
    }
}

/// How many pieces a message of `len` bytes is cut into, at most `size` bytes each.
pub open spec fn piece_count(len: nat, size: nat) -> nat
    recommends
        size > 0,
{
    ((len + size - 1) / (size as int)) as nat
}

/// The `i`-th piece of a message cut into pieces of at most `size` bytes.
pub open spec fn piece(data: Seq<u8>, size: nat, i: int) -> Seq<u8> {
    let start = i * size;
    let end = if data.len() - start < size { data.len() as int } else { start + size };
    data.subrange(start, end)
}

/// How many message bytes one packet with header `H` carries: what the receive
/// buffer holds beyond the kind byte and the header.
pub open spec fn piece_size<H: DataHeader>() -> nat {
    (BUFFER_SIZE - H::size_spec() - 1) as nat
}

/// The number of pieces, computed with a quotient and a remainder: every
/// piece starts inside the message, and the pieces cover it.
proof fn lemma_piece_count(len: nat, size: nat, n: nat)
    requires
        size >= 1,
        n == if len % size == 0 { len / size } else { len / size + 1 },
    ensures
        n == piece_count(len, size),
        forall|k: nat| k < n ==> #[trigger] (k * (size as nat)) < len,
        n * size >= len,
{
    assert(n == piece_count(len, size) && n * size >= len) by (nonlinear_arith)
        requires
            size >= 1,
            n == if len % size == 0 { len / size } else { len / size + 1 },
    {
    }
    assert forall|k: nat| k < n implies #[trigger] (k * size) < len by {
        assert(k * size < len) by (nonlinear_arith)
            requires
                size >= 1,
                k < n,
                n == if len % size == 0 { len / size } else { len / size + 1 },
        {
        }
    }
}

/// The data of a sequence of packets, one after the other.
pub open spec fn concat_data<H: DataHeader>(ps: Seq<DataPkt<H>>) -> Seq<u8>
    decreases ps.len(),
{
    if ps.len() == 0 {
        Seq::empty()
    } else {
        concat_data(ps.drop_last()) + ps.last().data@
    }
}

/// The size of the receive buffer.
pub const BUFFER_SIZE: usize = 1024;

/// A packet that carries data and can be made, cut from a message and acknowledged.
pub trait HasData<H: DataHeader>: Sized + Packet {
    type AckType: IsAck + Get;

    /// This packet carries `header`, with the checksum of the packet, and `data`.
    spec fn built_from(&self, header: H, data: Seq<u8>) -> bool;

    /// The acknowledgement of this packet.
    spec fn pkt_ack(&self) -> Self::AckType;

    fn new(header: H, data: Vec<u8>) -> (pkt: Self)
        ensures
            pkt.built_from(header, data@),
    ;

    /// Cuts a message into packets with consecutive sequence numbers from
    /// `seq_num`; the final one is marked last. With IPv4 addresses, every
    /// packet fits the receive buffer, kind byte included.
    fn pkts_from_msg(addrs: Vec<&SocketAddr>, seq_num: u32, data: Vec<u8>) -> (pkts: Vec<Self>)
        requires
            addrs@.len() >= H::addr_count(),
            seq_num + piece_count(data@.len(), piece_size::<H>()) <= u32::MAX + 1,
        ensures
            pkts@.len() == piece_count(data@.len(), piece_size::<H>()),
            forall|i: int|
                0 <= i < pkts@.len() ==> (#[trigger] pkts@[i]).built_from(
                    H::made(
                        addr_values(addrs@),
                        (seq_num + i) as u32,
                        i == pkts@.len() - 1,
                    ),
                    piece(data@, piece_size::<H>(), i),
                ),
            (forall|k: int| 0 <= k < H::addr_count() ==> #[trigger] addr_values(addrs@)[k].is_v4()) ==> forall|i: int|
                0 <= i < pkts@.len() ==> (#[trigger] pkts@[i]).pkt_wire().len() <= BUFFER_SIZE,
    ;

    fn get_ack(&self) -> (ack: Self::AckType)
        ensures
            ack == self.pkt_ack(),
    ;
}

impl<H: DataHeader> HasData<H> for DataPkt<H> where H::AckType: Get {
    type AckType = H::AckType;

    open spec fn built_from(&self, header: H, data: Seq<u8>) -> bool {
        &&& self.data@ == data
        &&& self.header == header.with_checksum(wrap32(byte_sum(data) + header.sum_spec()) as u32)
    }

    open spec fn pkt_ack(&self) -> H::AckType {
        self.header.ack_spec()
    }

    fn new(header: H, data: Vec<u8>) -> (pkt: DataPkt<H>) {
        let pkt = DataPkt { header, data };
        let sum = Packet::checksum(&pkt);
        let DataPkt { header, data } = pkt;
        let mut header = header;
        header.set_checksum(sum);
        DataPkt { header, data }
    }

    fn pkts_from_msg(addrs: Vec<&SocketAddr>, seq_num: u32, data: Vec<u8>) -> (pkts: Vec<DataPkt<H>>) {
        proof {
            H::lemma_size_fits();
        }
        let size = BUFFER_SIZE - H::size() - 1;
        let len = data.len();
        let q = len / size;
        assert(q < usize::MAX) by (nonlinear_arith)
            requires
                size >= 2,
                q == len / size,
        {
        }
        let n = if len % size == 0 { q } else { q + 1 };
        proof {
            lemma_piece_count(len as nat, size as nat, n as nat);
        }
        let mut pkts: Vec<DataPkt<H>> = Vec::new();
        let mut i: usize = 0;
        let mut start: usize = 0;
        while i < n
            invariant
                size == piece_size::<H>(),
                size >= 2,
                n == piece_count(data@.len(), size as nat),
                forall|k: nat| k < n ==> #[trigger] (k * (size as nat)) < len,
                (n as nat) * (size as nat) >= len,
                len == data@.len(),
                i <= n,
                i < n ==> start == i * size,
                i == n ==> start == len,
                start <= len,
                addrs@.len() >= H::addr_count(),
                seq_num + n <= u32::MAX + 1,
                pkts@.len() == i,
                concat_data(pkts@) == data@.subrange(0, start as int),
                forall|j: int|
                    0 <= j < i ==> (#[trigger] pkts@[j]).built_from(
                        H::made(addr_values(addrs@), (seq_num + j) as u32, j == n - 1),
                        piece(data@, size as nat, j),
                    ),
                (forall|k: int| 0 <= k < H::addr_count() ==> #[trigger] addr_values(addrs@)[k].is_v4()) ==> forall|j: int|
                    0 <= j < i ==> (#[trigger] pkts@[j]).pkt_wire().len() <= BUFFER_SIZE,
            decreases n - i,
        {
            let end = if len - start < size { len } else { start + size };
            let chunk = slice_to_vec(slice_subrange(data.as_slice(), start, end));
            let header = H::new(&addrs, seq_num + i as u32, i == n - 1);
            let pkt = DataPkt::<H>::new(header, chunk);
            let ghost before = pkts@;
            pkts.push(pkt);
            proof {
                assert(pkts@.drop_last() =~= before);
                assert(data@.subrange(0, end as int) =~= data@.subrange(0, start as int) + chunk@);
                assert(chunk@ =~= piece(data@, size as nat, i as int));
                if forall|k: int| 0 <= k < H::addr_count() ==> #[trigger] addr_values(addrs@)[k].is_v4() {
                    H::lemma_made(addr_values(addrs@), (seq_num + i) as u32, i == n - 1);
                    let h = H::made(addr_values(addrs@), (seq_num + i) as u32, i == n - 1);
                    let c = wrap32(byte_sum(chunk@) + h.sum_spec()) as u32;
                    h.lemma_with_checksum(c);
                    let last = pkts@[i as int];
                    assert(last.header == h.with_checksum(c));
                    last.header.lemma_roundtrip(Seq::empty());
                    assert(chunk@.len() <= size);
                    H::lemma_size_fits();
                    assert(last.data@ == chunk@);
                    assert(last.pkt_wire().len() == H::size_spec() + 1 + chunk@.len());
                    assert(last.pkt_wire().len() <= BUFFER_SIZE);
                    assert forall|j: int| 0 <= j < i + 1 implies (#[trigger] pkts@[j]).pkt_wire().len() <= BUFFER_SIZE by {
                        if j < i {
                            assert(pkts@[j] == before[j]);
                        }
                    }
                }
                assert((i + 1) * size == i * size + size) by (nonlinear_arith);
                if i + 1 < n {
                    assert(((i + 1) as nat * (size as nat)) < len);
                } else {
                    assert((n as nat) * (size as nat) == i * size + size) by (nonlinear_arith)
                        requires
                            i + 1 == n,
                    {
                    }
                }
            }
            i = i + 1;
            start = end;
        }
        proof {
            assert(data@.subrange(0, start as int) =~= data@);
        }
        pkts
    }

    fn get_ack(&self) -> (ack: H::AckType) {
        self.header.get_ack()
    }
}

/// The fields that every packet carries, read the same way whatever its kind.
pub trait Get: Packet {
    spec fn dst_spec(&self) -> SocketAddr;

    spec fn src_spec(&self) -> SocketAddr;

    spec fn seq_num_spec(&self) -> u32;

    /// The name of the packet's kind.
    spec fn type_spec(&self) -> Seq<char>;

    fn get_dst_addr(&self) -> (a: SocketAddr)
        ensures
            a == self.dst_spec(),
    ;

    fn get_src_addr(&self) -> (a: SocketAddr)
        ensures
            a == self.src_spec(),
    ;

    fn get_seq_num(&self) -> (n: u32)
        ensures
            n == self.seq_num_spec(),
    ;

    fn type_h(&self) -> (name: &str)
        ensures
            name@ == self.type_spec(),
    ;
}

impl Get for Ack {
    open spec fn dst_spec(&self) -> SocketAddr {
        self.dst_addr
    }

    open spec fn src_spec(&self) -> SocketAddr {
        self.src_addr
    }

    open spec fn seq_num_spec(&self) -> u32 {
        self.seq_num
    }

    open spec fn type_spec(&self) -> Seq<char> {
        Ack::TYPE@
    }

    fn get_dst_addr(&self) -> (a: SocketAddr) {
        self.dst_addr
    }

    fn get_src_addr(&self) -> (a: SocketAddr) {
        self.src_addr
    }

    fn get_seq_num(&self) -> (n: u32) {
        self.seq_num
    }

    fn type_h(&self) -> (name: &str) {
        Ack::TYPE
    }
}

impl Get for AckBrd {
    open spec fn dst_spec(&self) -> SocketAddr {
        self.dst_addr
    }

    open spec fn src_spec(&self) -> SocketAddr {
        self.src_addr
    }

    open spec fn seq_num_spec(&self) -> u32 {
        self.seq_num
    }

    open spec fn type_spec(&self) -> Seq<char> {
        AckBrd::TYPE@
    }

    fn get_dst_addr(&self) -> (a: SocketAddr) {
        self.dst_addr
    }

    fn get_src_addr(&self) -> (a: SocketAddr) {
        self.src_addr
    }

    fn get_seq_num(&self) -> (n: u32) {
        self.seq_num
    }

    fn type_h(&self) -> (name: &str) {
        AckBrd::TYPE
    }
}

impl Get for DataPkt<HSnd> {
    open spec fn dst_spec(&self) -> SocketAddr {
        self.header.dst_addr
    }

    open spec fn src_spec(&self) -> SocketAddr {
        self.header.src_addr
    }

    open spec fn seq_num_spec(&self) -> u32 {
        self.header.seq_num
    }

    open spec fn type_spec(&self) -> Seq<char> {
        HSnd::TYPE@
    }

    fn get_dst_addr(&self) -> (a: SocketAddr) {
        self.header.dst_addr
    }

    fn get_src_addr(&self) -> (a: SocketAddr) {
        self.header.src_addr
    }

    fn get_seq_num(&self) -> (n: u32) {
        self.header.seq_num
    }

    fn type_h(&self) -> (name: &str) {
        HSnd::TYPE
    }
}

impl Get for DataPkt<HBrd> {
    open spec fn dst_spec(&self) -> SocketAddr {
        self.header.dst_addr
    }

    open spec fn src_spec(&self) -> SocketAddr {
        self.header.src_addr
    }

    open spec fn seq_num_spec(&self) -> u32 {
        self.header.seq_num
    }

    open spec fn type_spec(&self) -> Seq<char> {
        HBrd::TYPE@
    }

    fn get_dst_addr(&self) -> (a: SocketAddr) {
        self.header.dst_addr
    }

    fn get_src_addr(&self) -> (a: SocketAddr) {
        self.header.src_addr
    }

    fn get_seq_num(&self) -> (n: u32) {
        self.header.seq_num
    }

    fn type_h(&self) -> (name: &str) {
        HBrd::TYPE
    }
}

impl Get for DataPkt<HLRq> {
    open spec fn dst_spec(&self) -> SocketAddr {
        self.header.dst_addr
    }

    open spec fn src_spec(&self) -> SocketAddr {
        self.header.src_addr
    }

    open spec fn seq_num_spec(&self) -> u32 {
        self.header.seq_num
    }

    open spec fn type_spec(&self) -> Seq<char> {
        HLRq::TYPE@
    }

    fn get_dst_addr(&self) -> (a: SocketAddr) {
        self.header.dst_addr
    }

    fn get_src_addr(&self) -> (a: SocketAddr) {
        self.header.src_addr
    }

    fn get_seq_num(&self) -> (n: u32) {
        self.header.seq_num
    }

    fn type_h(&self) -> (name: &str) {
        HLRq::TYPE
    }
}

/// The member a packet comes from first: for a broadcast its origin, for the
/// others its sender.
pub trait Origin {
    spec fn origin_spec(&self) -> SocketAddr;

    fn get_origin_addr(&self) -> (a: SocketAddr)
        ensures
            a == self.origin_spec(),
    ;
}

impl Origin for DataPkt<HSnd> {
    open spec fn origin_spec(&self) -> SocketAddr {
        self.header.src_addr
    }

    fn get_origin_addr(&self) -> (a: SocketAddr) {
        self.header.src_addr
    }
}

impl Origin for DataPkt<HLRq> {
    open spec fn origin_spec(&self) -> SocketAddr {
        self.header.src_addr
    }

    fn get_origin_addr(&self) -> (a: SocketAddr) {
        self.header.src_addr
    }
}

impl Origin for Ack {
    open spec fn origin_spec(&self) -> SocketAddr {
        self.src_addr
    }

    fn get_origin_addr(&self) -> (a: SocketAddr) {
        self.src_addr
    }
}

impl Origin for DataPkt<HBrd> {
    open spec fn origin_spec(&self) -> SocketAddr {
        self.header.origin
    }

    fn get_origin_addr(&self) -> (a: SocketAddr) {
        self.header.origin
    }
}

impl Origin for AckBrd {
    open spec fn origin_spec(&self) -> SocketAddr {
        self.origin
    }

    fn get_origin_addr(&self) -> (a: SocketAddr) {
        self.origin
    }
}

/// A packet of any kind, as read from the bytes that arrive.
pub enum PacketType {
    Send(DataPkt<HSnd>),
    Broadcast(DataPkt<HBrd>),
    LeaderRequest(DataPkt<HLRq>),
    Ack(Ack),
    AckBrd(AckBrd),
}

/// The size of the header that a kind byte announces, kind byte left out.
pub open spec fn kind_size(kind: u8) -> nat {
    if kind == SD {
        21
    } else if kind == BD {
        27
    } else if kind == ACK {
        20
    } else if kind == ACK_BD {
        26
    } else {
        21
    }
}

/// The bytes can be read as a packet: a known kind byte, then at least the
/// header that it announces.
pub open spec fn is_readable(bytes: Seq<u8>) -> bool {
    &&& bytes.len() >= 1
    &&& bytes[0] <= LREQ
    &&& bytes.len() - 1 >= kind_size(bytes[0])
}

/// `t` is the packet of the kind that the first byte names, read from the rest.
pub open spec fn read_as(t: PacketType, bytes: Seq<u8>) -> bool {
    let kind = bytes[0];
    let rest = bytes.drop_first();
    match t {
        PacketType::Send(p) => kind == SD && p.read_from(rest),
        PacketType::Broadcast(p) => kind == BD && p.read_from(rest),
        PacketType::LeaderRequest(p) => kind == LREQ && p.read_from(rest),
        PacketType::Ack(p) => kind == ACK && p.read_from(rest),
        PacketType::AckBrd(p) => kind == ACK_BD && p.read_from(rest),
    }
}

/// The checksum field of a packet matches its contents.
pub open spec fn checks_out(t: PacketType) -> bool {
    match t {
        PacketType::Send(p) => p.header.checksum as nat == p.pkt_sum(),
        PacketType::Broadcast(p) => p.header.checksum as nat == p.pkt_sum(),
        PacketType::LeaderRequest(p) => p.header.checksum as nat == p.pkt_sum(),
        PacketType::Ack(p) => p.checksum as nat == p.pkt_sum(),
        PacketType::AckBrd(p) => p.checksum as nat == p.pkt_sum(),
    }
}

impl PacketType {
    pub const BUFFER_SIZE: usize = 1024;

    /// Reads a packet: the first byte names its kind, the rest is the packet.
    pub fn from_bytes(bytes: Vec<u8>) -> (t: PacketType)
        requires
            is_readable(bytes@),
        ensures
            read_as(t, bytes@),
    {
        let type_h = bytes[0];
        let rest = slice_to_vec(slice_subrange(bytes.as_slice(), 1, bytes.len()));
        proof {
            assert(rest@ =~= bytes@.drop_first());
        }
        if type_h == SD {
            PacketType::Send(<DataPkt<HSnd> as Packet>::from_bytes(rest))
        } else if type_h == BD {
            PacketType::Broadcast(<DataPkt<HBrd> as Packet>::from_bytes(rest))
        } else if type_h == ACK {
            PacketType::Ack(<Ack as Packet>::from_bytes(rest))
        } else if type_h == LREQ {
            PacketType::LeaderRequest(<DataPkt<HLRq> as Packet>::from_bytes(rest))
        } else {
            PacketType::AckBrd(<AckBrd as Packet>::from_bytes(rest))
        }
    }

    /// Whether the packet's checksum field matches its contents.
    pub fn validate_pkt(&self) -> (ok: bool)
        ensures
            ok == checks_out(*self),
    {
        match self {
            PacketType::Ack(pkt) => pkt.checksum == <Ack as Packet>::checksum(pkt),
            PacketType::AckBrd(pkt) => pkt.checksum == <AckBrd as Packet>::checksum(pkt),
            PacketType::Send(pkt) => pkt.header.checksum == <DataPkt<HSnd> as Packet>::checksum(pkt),
            PacketType::Broadcast(pkt) => pkt.header.checksum == <DataPkt<HBrd> as Packet>::checksum(pkt),
            PacketType::LeaderRequest(pkt) => pkt.header.checksum == <DataPkt<HLRq> as Packet>::checksum(pkt),
        }
    }
}

/// Law: a packet made by `new` carries the checksum of its contents, and the
/// sequence number, last mark and acknowledgement of the header it was made with.
pub proof fn lemma_built_is_valid<H: DataHeader>(p: DataPkt<H>, header: H, data: Seq<u8>) where H::AckType: Get
    requires
        p.built_from(header, data),
    ensures
        p.header.checksum_spec() == p.pkt_sum(),
        p.header.seq_spec() == header.seq_spec(),
        p.header.last_spec() == header.last_spec(),
        p.header.ack_spec() == header.ack_spec(),
{
    header.lemma_with_checksum(wrap32(byte_sum(data) + header.sum_spec()) as u32);
}

/// Law: reading the wire form of a data packet, past its kind byte, gives the
/// packet back (its addresses IPv4).
pub proof fn lemma_read_back<H: DataHeader>(p: DataPkt<H>, q: DataPkt<H>)
    requires
        p.header.is_v4(),
        q.read_from(p.pkt_wire().drop_first()),
    ensures
        q.header == p.header,
        q.data@ == p.data@,
{
    p.header.lemma_roundtrip(p.data@);
    let w = p.pkt_wire().drop_first();
    assert(w =~= p.header.wire().drop_first() + p.data@);
    assert(w.skip(H::size_spec() as int) =~= p.data@);
}

/// Law: reading the wire form of an acknowledgement, past its kind byte, gives
/// it back (its addresses IPv4).
pub proof fn lemma_ack_read_back<A: IsAck>(a: A, b: A)
    requires
        a.is_v4(),
        b.read_from(a.pkt_wire().drop_first()),
    ensures
        b == a,
{
    a.lemma_roundtrip(Seq::empty());
    assert(a.wire().drop_first() + Seq::empty() =~= a.wire().drop_first());
}

/// The wire form of a packet of any kind.
pub open spec fn wire_of(t: PacketType) -> Seq<u8> {
    match t {
        PacketType::Send(p) => p.pkt_wire(),
        PacketType::Broadcast(p) => p.pkt_wire(),
        PacketType::LeaderRequest(p) => p.pkt_wire(),
        PacketType::Ack(p) => p.pkt_wire(),
        PacketType::AckBrd(p) => p.pkt_wire(),
    }
}

/// Every address of the packet is IPv4.
pub open spec fn packet_is_v4(t: PacketType) -> bool {
    match t {
        PacketType::Send(p) => p.header.is_v4(),
        PacketType::Broadcast(p) => p.header.is_v4(),
        PacketType::LeaderRequest(p) => p.header.is_v4(),
        PacketType::Ack(p) => p.is_v4(),
        PacketType::AckBrd(p) => p.is_v4(),
    }
}

/// Two packets of the same kind with the same header and the same data.
pub open spec fn same_packet(t: PacketType, u: PacketType) -> bool {
    match (t, u) {
        (PacketType::Send(p), PacketType::Send(q)) => p.header == q.header && p.data@ == q.data@,
        (PacketType::Broadcast(p), PacketType::Broadcast(q)) => p.header == q.header && p.data@ == q.data@,
        (PacketType::LeaderRequest(p), PacketType::LeaderRequest(q)) => p.header == q.header && p.data@
            == q.data@,
        (PacketType::Ack(p), PacketType::Ack(q)) => p == q,
        (PacketType::AckBrd(p), PacketType::AckBrd(q)) => p == q,
        _ => false,
    }
}

/// Law: the wire form of any packet (its addresses IPv4) can be read, and
/// reading it gives the same packet, which passes validation exactly when the
/// packet did.
pub proof fn lemma_packet_roundtrip(t: PacketType, u: PacketType)
    requires
        packet_is_v4(t),
        read_as(u, wire_of(t)),
    ensures
        is_readable(wire_of(t)),
        same_packet(t, u),
        checks_out(u) == checks_out(t),
{
    match t {
        PacketType::Send(p) => {
            p.header.lemma_roundtrip(p.data@);
            if let PacketType::Send(q) = u {
                lemma_read_back(p, q);
            }
        },
        PacketType::Broadcast(p) => {
            p.header.lemma_roundtrip(p.data@);
            if let PacketType::Broadcast(q) = u {
                lemma_read_back(p, q);
            }
        },
        PacketType::LeaderRequest(p) => {
            p.header.lemma_roundtrip(p.data@);
            if let PacketType::LeaderRequest(q) = u {
                lemma_read_back(p, q);
            }
        },
        PacketType::Ack(p) => {
            p.lemma_roundtrip(Seq::empty());
            if let PacketType::Ack(q) = u {
                lemma_ack_read_back(p, q);
            }
        },
        PacketType::AckBrd(p) => {
            p.lemma_roundtrip(Seq::empty());
            if let PacketType::AckBrd(q) = u {
                lemma_ack_read_back(p, q);
            }
        },
    }
}

} // verus!
