//! The compact 19-byte header: two addresses, a sequence number, a flag
//! byte and a 16-bit checksum.
use vstd::prelude::*;
use vstd::slice::{slice_subrange, slice_to_vec};
use crate::addr::{addr_bytes, addr_from_bytes, addr_of_bytes, ip_word, lemma_addr_roundtrip, addr_to_bytes, SocketAddr, u32_from_bytes, lemma_addr_bytes_len};
use crate::wire::{be_bytes, be_value, byte_pow, byte_sum, lemma_be_bytes_len, lemma_be_value_bound, lemma_be_value_of_bytes, lemma_byte_sum_prefix, push_be, read_be};

verus! {

/// The size of a compact header on the wire.
pub const HEADER_SIZE: usize = 19;

#[derive(Clone, Copy, Debug)]
pub struct Header {
    pub src_addr: SocketAddr,
    pub dst_addr: SocketAddr,
    pub seq_num: u32,
    /// ack 1, last 2.
    pub flags: u8,
    pub checksum: u16,
}

#[derive(Clone, Debug)]
pub struct Packet {
    pub header: Header,
    pub data: Vec<u8>,
}

/// The plain sum behind the checksum: both IP words and ports, the sequence
/// number, the flag byte and every data byte.
pub open spec fn compact_total(h: Header, data: Seq<u8>) -> nat {
    ip_word(h.src_addr.ip) + h.src_addr.port as nat + ip_word(h.dst_addr.ip) + h.dst_addr.port as nat
        + h.seq_num as nat + h.flags as nat + byte_sum(data)
}

/// The checksum: the plain sum cut to its low 16 bits.
pub open spec fn compact_sum(h: Header, data: Seq<u8>) -> nat {
    compact_total(h, data) % 0x1_0000
}

/// A compact header on the wire.
pub open spec fn compact_bytes(h: Header) -> Seq<u8> {
    addr_bytes(h.src_addr) + addr_bytes(h.dst_addr) + be_bytes(h.seq_num as nat, 4) + seq![h.flags]
        + be_bytes(h.checksum as nat, 2)
}

/// The compact header that 19 bytes denote.
pub open spec fn compact_of_bytes(s: Seq<u8>) -> Header {
    Header {
        src_addr: addr_of_bytes(s.subrange(0, 6)),
        dst_addr: addr_of_bytes(s.subrange(6, 12)),
        seq_num: be_value(s.subrange(12, 16)) as u32,
        flags: s[16],
        checksum: be_value(s.subrange(17, 19)) as u16,
    }
}

impl Header {
    pub fn new(
        src_addr: SocketAddr,
        dst_addr: SocketAddr,
        seq_num: u32,
        flags: u8,
        checksum: Option<u16>,
    ) -> (h: Header)
        ensures
            h == (Header {
                src_addr,
                dst_addr,
                seq_num,
                flags,
                checksum: match checksum {
                    Some(c) => c,
                    None => 0,
                },
            }),
    {
        let checksum = match checksum {
            Some(c) => c,
            None => 0,
        };
        Header { src_addr, dst_addr, seq_num, flags, checksum }
    }

    /// The acknowledgement: addresses swapped, ack flag added, checksum zero.
    pub fn get_ack(&self) -> (ack: Header)
        ensures
            ack == (Header {
                src_addr: self.dst_addr,
                dst_addr: self.src_addr,
                seq_num: self.seq_num,
                flags: self.flags | 1,
                checksum: 0,
            }),
    {
        Header {
            src_addr: self.dst_addr,
            dst_addr: self.src_addr,
            seq_num: self.seq_num,
            flags: self.flags | 1,
            checksum: 0,
        }
    }

    pub fn is_ack(&self) -> (res: bool)
        ensures
            res == (self.flags & 1 == 1),
    {
        (self.flags & 1) == 1
    }

    pub fn is_last(&self) -> (res: bool)
        ensures
            res == (self.flags & 2 == 2),
    {
        (self.flags & 2) == 2
    }

    pub fn to_bytes(&self) -> (bytes: Vec<u8>)
        ensures
            bytes@ == compact_bytes(*self),
    {
        let mut bytes = addr_to_bytes(self.src_addr);
        let dst = addr_to_bytes(self.dst_addr);
        bytes.extend_from_slice(dst.as_slice());
        push_be(&mut bytes, self.seq_num as u128, 4);
        bytes.push(self.flags);
        push_be(&mut bytes, self.checksum as u128, 2);
        proof {
            assert(bytes@ =~= compact_bytes(*self));
        }
        bytes
    }

    fn read(bytes: &[u8]) -> (h: Header)
        requires
            bytes@.len() >= HEADER_SIZE,
        ensures
            h == compact_of_bytes(bytes@.subrange(0, HEADER_SIZE as int)),
    {
        let mut start: usize = 0;
        let src_addr = addr_from_bytes(bytes, &mut start);
        let dst_addr = addr_from_bytes(bytes, &mut start);
        let seq_num = u32_from_bytes(bytes, &mut start);
        let flags = bytes[16];
        let checksum = read_be(bytes, 17, 2);
        proof {
            let s = bytes@.subrange(0, HEADER_SIZE as int);
            assert(s.subrange(0, 6) =~= bytes@.subrange(0, 6));
            assert(s.subrange(6, 12) =~= bytes@.subrange(6, 12));
            assert(s.subrange(12, 16) =~= bytes@.subrange(12, 16));
            assert(s.subrange(17, 19) =~= bytes@.subrange(17, 19));
            lemma_be_value_bound(bytes@.subrange(17, 19));
            assert(byte_pow(2) == 0x1_0000) by {
                reveal_with_fuel(byte_pow, 3);
            }
        }
        Header { src_addr, dst_addr, seq_num, flags, checksum: checksum as u16 }
    }

    /// The compact header that 19 bytes hold.
    pub fn from_bytes(bytes: [u8; 19]) -> (h: Header)
        ensures
            h == compact_of_bytes(bytes@),
    {
        let h = Header::read(bytes.as_slice());
        proof {
            assert(bytes@.subrange(0, HEADER_SIZE as int) =~= bytes@);
        }
        h
    }
}

impl Packet {
    /// A packet; without a given checksum, the checksum of its contents.
    pub fn new(
        src_addr: SocketAddr,
        dst_addr: SocketAddr,
        seq_num: u32,
        flags: u8,
        checksum: Option<u16>,
        data: Vec<u8>,
    ) -> (p: Packet)
        requires
            checksum is None ==> compact_total(
                Header { src_addr, dst_addr, seq_num, flags, checksum: 0 },
                data@,
            ) <= u32::MAX,
        ensures
            p.data@ == data@,
            p.header == (Header {
                src_addr,
                dst_addr,
                seq_num,
                flags,
                checksum: match checksum {
                    Some(c) => c,
                    None => compact_sum(Header { src_addr, dst_addr, seq_num, flags, checksum: 0 }, data@) as u16,
                },
            }),
    {
        let checksum = match checksum {
            Some(c) => Some(c),
            None => Some(Packet::checksum(&Header::new(src_addr, dst_addr, seq_num, flags, None), &data)),
        };
        let header = Header::new(src_addr, dst_addr, seq_num, flags, checksum);
        Packet { header, data }
    }

    pub fn to_bytes(&self) -> (bytes: Vec<u8>)
        ensures
            bytes@ == compact_bytes(self.header) + self.data@,
    {
        let mut bytes = self.header.to_bytes();
        bytes.extend_from_slice(self.data.as_slice());
        proof {
            assert(bytes@ =~= compact_bytes(self.header) + self.data@);
        }
        bytes
    }

    /// The packet held in the first `data_size` bytes of a receive buffer.
    pub fn from_bytes(bytes: [u8; 1024], data_size: usize) -> (p: Packet)
        requires
            HEADER_SIZE <= data_size <= 1024,
        ensures
            p.header == compact_of_bytes(bytes@.subrange(0, HEADER_SIZE as int)),
            p.data@ == bytes@.subrange(HEADER_SIZE as int, data_size as int),
    {
        let all = bytes.as_slice();
        let header = Header::read(all);
        let data = slice_to_vec(slice_subrange(all, HEADER_SIZE, data_size));
        Packet { header, data }
    }

    /// The 16-bit checksum of a header (its checksum field left out) and data.
    pub fn checksum(header: &Header, data: &Vec<u8>) -> (sum: u16)
        requires
            compact_total(*header, data@) <= u32::MAX,
        ensures
            sum == compact_sum(*header, data@),
    {
        let src_ip: u32 = match header.src_addr.ip {
            crate::addr::IpAddr::V4(v) => v,
            crate::addr::IpAddr::V6(v) => (v % 0x1_0000_0000) as u32,
        };
        let dst_ip: u32 = match header.dst_addr.ip {
            crate::addr::IpAddr::V4(v) => v,
            crate::addr::IpAddr::V6(v) => (v % 0x1_0000_0000) as u32,
        };
        proof {
            lemma_byte_sum_prefix(data@, 0);
        }
        let mut sum: u32 = 0;
        sum = sum + src_ip;
        sum = sum + header.src_addr.port as u32;
        sum = sum + dst_ip;
        sum = sum + header.dst_addr.port as u32;
        sum = sum + header.seq_num;
        sum = sum + header.flags as u32;
        let ghost head = sum;
        let mut i: usize = 0;
        while i < data.len()
            invariant
                i <= data@.len(),
                head as nat + byte_sum(data@) <= u32::MAX,
                sum as nat == head + byte_sum(data@.subrange(0, i as int)),
            decreases data@.len() - i,
        {
            proof {
                lemma_byte_sum_prefix(data@, i + 1);
                assert(data@.subrange(0, i + 1).drop_last() =~= data@.subrange(0, i as int));
            }
            sum = sum + data[i] as u32;
            i = i + 1;
        }
        proof {
            assert(data@.subrange(0, data@.len() as int) =~= data@);
        }
        (sum % 0x1_0000) as u16
    }

    pub fn is_ack(&self) -> (res: bool)
        ensures
            res == (self.header.flags & 1 == 1),
    {
        self.header.is_ack()
    }

    pub fn is_last(&self) -> (res: bool)
        ensures
            res == (self.header.flags & 2 == 2),
    {
        self.header.is_last()
    }
}

/// Reading back the bytes of a compact header whose addresses are IPv4 gives the header.
pub proof fn lemma_compact_roundtrip(h: Header)
    requires
        h.src_addr.is_v4(),
        h.dst_addr.is_v4(),
    ensures
        compact_bytes(h).len() == HEADER_SIZE,
        compact_of_bytes(compact_bytes(h)) == h,
{
    lemma_addr_bytes_len(h.src_addr);
    lemma_addr_bytes_len(h.dst_addr);
    lemma_be_bytes_len(h.seq_num as nat, 4);
    lemma_be_bytes_len(h.checksum as nat, 2);
    let s = compact_bytes(h);
    assert(s.subrange(0, 6) =~= addr_bytes(h.src_addr));
    assert(s.subrange(6, 12) =~= addr_bytes(h.dst_addr));
    assert(s.subrange(12, 16) =~= be_bytes(h.seq_num as nat, 4));
    assert(s.subrange(17, 19) =~= be_bytes(h.checksum as nat, 2));
    lemma_addr_roundtrip(h.src_addr);
    lemma_addr_roundtrip(h.dst_addr);
    lemma_be_value_of_bytes(h.seq_num as nat, 4);
    lemma_be_value_of_bytes(h.checksum as nat, 2);
    assert(byte_pow(4) == 0x1_0000_0000) by {
        reveal_with_fuel(byte_pow, 5);
    }
    assert(byte_pow(2) == 0x1_0000) by {
        reveal_with_fuel(byte_pow, 3);
    }
}

} // verus!
