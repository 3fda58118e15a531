//! The typed header formats: each starts on the wire with a byte that names
//! its kind (send 0, broadcast 1, ack 2, broadcast ack 3, leader request 4).
use vstd::prelude::*;
use crate::addr::{
    addr_bytes, addr_from_bytes, addr_of_bytes, addr_sum, addr_to_bytes, lemma_addr_bytes_len,
    lemma_addr_roundtrip, sum_addr, u32_from_bytes, SocketAddr,
};
use crate::wire::{
    be_bytes, be_value, byte_pow, lemma_be_bytes_len, lemma_be_value_of_bytes, push_be, wrap32,
    wrapping_accumulate,
};

verus! {

/// The kind byte of a send.
pub const SD: u8 = 0;
/// The kind byte of a broadcast.
pub const BD: u8 = 1;
/// The kind byte of an acknowledgement.
pub const ACK: u8 = 2;
/// The kind byte of a broadcast acknowledgement.
pub const ACK_BD: u8 = 3;
/// The kind byte of a leader request.
pub const LREQ: u8 = 4;

#[derive(Clone, Copy, Debug)]
pub struct HSnd {
    pub src_addr: SocketAddr,
    pub dst_addr: SocketAddr,
    pub seq_num: u32,
    pub is_last: bool,
    pub checksum: u32,
}

#[derive(Clone, Copy, Debug)]
pub struct HBrd {
    pub src_addr: SocketAddr,
    pub dst_addr: SocketAddr,
    pub origin: SocketAddr,
    pub seq_num: u32,
    pub is_last: bool,
    pub checksum: u32,
}

#[derive(Clone, Copy, Debug)]
pub struct HLRq {
    pub src_addr: SocketAddr,
    pub dst_addr: SocketAddr,
    pub seq_num: u32,
    pub is_last: bool,
    pub checksum: u32,
}

#[derive(Clone, Copy, Debug)]
pub struct Ack {
    pub src_addr: SocketAddr,
    pub dst_addr: SocketAddr,
    pub seq_num: u32,
    pub checksum: u32,
}

#[derive(Clone, Copy, Debug)]
pub struct AckBrd {
    pub src_addr: SocketAddr,
    pub dst_addr: SocketAddr,
    pub origin: SocketAddr,
    pub seq_num: u32,
    pub checksum: u32,
}

impl HSnd {
    /// The size on the wire, the kind byte left out.
    pub const SIZE: usize = 21;
    pub const TYPE: &'static str = "Send";
}

impl HBrd {
    pub const SIZE: usize = 27;
    pub const TYPE: &'static str = "Broadcast";
}

impl HLRq {
    pub const SIZE: usize = 21;
    pub const TYPE: &'static str = "LeaderRequest";
}

impl Ack {
    pub const SIZE: usize = 20;
    pub const TYPE: &'static str = "Ack";
}

impl AckBrd {
    pub const SIZE: usize = 26;
    pub const TYPE: &'static str = "AckBroadcast";
}

/// A boolean as the byte that carries it.
pub open spec fn bool_byte(b: bool) -> u8 {
    if b { 1 } else { 0 }
}

/// The number that four bytes at `at` denote.
pub open spec fn u32_at(s: Seq<u8>, at: int) -> u32 {
    be_value(s.subrange(at, at + 4)) as u32
}

/// The address that six bytes at `at` denote.
pub open spec fn addr_at(s: Seq<u8>, at: int) -> SocketAddr {
    addr_of_bytes(s.subrange(at, at + 6))
}

/// What the header formats share: a checksum over the fields, a wire form
/// that starts with the kind byte, and a reading of the wire form without it.
pub trait Header: Sized {
    /// The checksum of the fields, the checksum field left out.
    spec fn sum_spec(&self) -> nat;

    /// The wire form, kind byte first.
    spec fn wire(&self) -> Seq<u8>;

    /// The header that bytes without the kind byte denote.
    spec fn parse(s: Seq<u8>) -> Self;

    /// The size on the wire, kind byte left out.
    spec fn size_spec() -> nat;

    /// Every address of the header is IPv4.
    spec fn is_v4(&self) -> bool;

    /// The checksum of `header`.
    fn checksum(header: &Self) -> (sum: u32)
        ensures
            sum == header.sum_spec(),
    ;

    fn to_bytes(&self) -> (bytes: Vec<u8>)
        ensures
            bytes@ == self.wire(),
    ;

    /// Reads a header from bytes that start after the kind byte.
    fn from_bytes(bytes: Vec<u8>) -> (h: Self)
        requires
            bytes@.len() >= Self::size_spec(),
        ensures
            h == Self::parse(bytes@),
    ;

    fn size() -> (n: usize)
        ensures
            n == Self::size_spec(),
    ;

    /// Every header fits in 27 bytes.
    proof fn lemma_size_fits()
        ensures
            Self::size_spec() <= 27,
    ;

    /// Law: reading back the wire form of an IPv4 header, past its kind byte,
    /// gives the header, whatever bytes follow it.
    proof fn lemma_roundtrip(&self, rest: Seq<u8>)
        requires
            self.is_v4(),
        ensures
            self.wire().len() == Self::size_spec() + 1,
            Self::parse(self.wire().drop_first() + rest) == *self,
    ;
}

proof fn lemma_pow4()
    ensures
        byte_pow(4) == 0x1_0000_0000,
{
    reveal_with_fuel(byte_pow, 5);
}

impl Header for HSnd {
    open spec fn sum_spec(&self) -> nat {
        wrap32(addr_sum(self.src_addr) + addr_sum(self.dst_addr) + self.seq_num as nat + bool_byte(self.is_last) as nat)
    }

    open spec fn wire(&self) -> Seq<u8> {
        seq![SD] + addr_bytes(self.src_addr) + addr_bytes(self.dst_addr) + be_bytes(self.seq_num as nat, 4)
            + seq![bool_byte(self.is_last)] + be_bytes(self.checksum as nat, 4)
    }

    open spec fn parse(s: Seq<u8>) -> HSnd {
        HSnd {
            src_addr: addr_at(s, 0),
            dst_addr: addr_at(s, 6),
            seq_num: u32_at(s, 12),
            is_last: s[16] != 0,
            checksum: u32_at(s, 17),
        }
    }

    open spec fn size_spec() -> nat {
        21
    }

    open spec fn is_v4(&self) -> bool {
        self.src_addr.is_v4() && self.dst_addr.is_v4()
    }

    fn checksum(header: &HSnd) -> (sum: u32) {
        let a = sum_addr(header.src_addr);
        let b = sum_addr(header.dst_addr);
        let mut sum: u32 = 0;
        sum = wrapping_accumulate(sum, a, Ghost(0));
        sum = wrapping_accumulate(sum, b, Ghost(a as nat));
        sum = wrapping_accumulate(sum, header.seq_num, Ghost(a as nat + b as nat));
        sum = wrapping_accumulate(sum, header.is_last as u32, Ghost(a as nat + b as nat + header.seq_num as nat));
        sum
    }

    fn to_bytes(&self) -> (bytes: Vec<u8>) {
        let mut bytes = Vec::new();
        bytes.push(SD);
        let src = addr_to_bytes(self.src_addr);
        bytes.extend_from_slice(src.as_slice());
        let dst = addr_to_bytes(self.dst_addr);
        bytes.extend_from_slice(dst.as_slice());
        push_be(&mut bytes, self.seq_num as u128, 4);
        bytes.push(self.is_last as u8);
        push_be(&mut bytes, self.checksum as u128, 4);
        proof {
            assert(bytes@ =~= self.wire());
        }
        bytes
    }

    fn from_bytes(bytes: Vec<u8>) -> (h: HSnd) {
        let s = bytes.as_slice();
        let mut start: usize = 0;
        let src_addr = addr_from_bytes(s, &mut start);
        let dst_addr = addr_from_bytes(s, &mut start);
        let seq_num = u32_from_bytes(s, &mut start);
        let is_last = s[start] != 0;
        start = start + 1;
        let checksum = u32_from_bytes(s, &mut start);
        HSnd { src_addr, dst_addr, seq_num, is_last, checksum }
    }

    fn size() -> (n: usize) {
        HSnd::SIZE
    }

    proof fn lemma_size_fits() {
    }

    proof fn lemma_roundtrip(&self, rest: Seq<u8>) {
        lemma_addr_bytes_len(self.src_addr);
        lemma_addr_bytes_len(self.dst_addr);
        lemma_be_bytes_len(self.seq_num as nat, 4);
        lemma_be_bytes_len(self.checksum as nat, 4);
        let s = self.wire().drop_first() + rest;
        assert(s =~= addr_bytes(self.src_addr) + addr_bytes(self.dst_addr) + be_bytes(self.seq_num as nat, 4)
            + seq![bool_byte(self.is_last)] + be_bytes(self.checksum as nat, 4) + rest);
        assert(s.subrange(0, 6) =~= addr_bytes(self.src_addr));
        assert(s.subrange(6, 12) =~= addr_bytes(self.dst_addr));
        assert(s.subrange(12, 16) =~= be_bytes(self.seq_num as nat, 4));
        assert(s.subrange(17, 21) =~= be_bytes(self.checksum as nat, 4));
        lemma_addr_roundtrip(self.src_addr);
        lemma_addr_roundtrip(self.dst_addr);
        lemma_be_value_of_bytes(self.seq_num as nat, 4);
        lemma_be_value_of_bytes(self.checksum as nat, 4);
        lemma_pow4();
    }
}

impl Header for HBrd {
    open spec fn sum_spec(&self) -> nat {
        wrap32(addr_sum(self.src_addr) + addr_sum(self.dst_addr) + addr_sum(self.origin) + self.seq_num as nat
            + bool_byte(self.is_last) as nat)
    }

    open spec fn wire(&self) -> Seq<u8> {
        seq![BD] + addr_bytes(self.src_addr) + addr_bytes(self.dst_addr) + addr_bytes(self.origin)
            + be_bytes(self.seq_num as nat, 4) + seq![bool_byte(self.is_last)] + be_bytes(self.checksum as nat, 4)
    }

    open spec fn parse(s: Seq<u8>) -> HBrd {
        HBrd {
            src_addr: addr_at(s, 0),
            dst_addr: addr_at(s, 6),
            origin: addr_at(s, 12),
            seq_num: u32_at(s, 18),
            is_last: s[22] != 0,
            checksum: u32_at(s, 23),
        }
    }

    open spec fn size_spec() -> nat {
        27
    }

    open spec fn is_v4(&self) -> bool {
        self.src_addr.is_v4() && self.dst_addr.is_v4() && self.origin.is_v4()
    }

    fn checksum(header: &HBrd) -> (sum: u32) {
        let a = sum_addr(header.src_addr);
        let b = sum_addr(header.dst_addr);
        let c = sum_addr(header.origin);
        let mut sum: u32 = 0;
        sum = wrapping_accumulate(sum, a, Ghost(0));
        sum = wrapping_accumulate(sum, b, Ghost(a as nat));
        sum = wrapping_accumulate(sum, c, Ghost(a as nat + b as nat));
        sum = wrapping_accumulate(sum, header.seq_num, Ghost(a as nat + b as nat + c as nat));
        sum = wrapping_accumulate(
            sum,
            header.is_last as u32,
            Ghost(a as nat + b as nat + c as nat + header.seq_num as nat),
        );
        sum
    }

    fn to_bytes(&self) -> (bytes: Vec<u8>) {
        let mut bytes = Vec::new();
        bytes.push(BD);
        let src = addr_to_bytes(self.src_addr);
        bytes.extend_from_slice(src.as_slice());
        let dst = addr_to_bytes(self.dst_addr);
        bytes.extend_from_slice(dst.as_slice());
        let org = addr_to_bytes(self.origin);
        bytes.extend_from_slice(org.as_slice());
        push_be(&mut bytes, self.seq_num as u128, 4);
        bytes.push(self.is_last as u8);
        push_be(&mut bytes, self.checksum as u128, 4);
        proof {
            assert(bytes@ =~= self.wire());
        }
        bytes
    }

    fn from_bytes(bytes: Vec<u8>) -> (h: HBrd) {
        let s = bytes.as_slice();
        let mut start: usize = 0;
        let src_addr = addr_from_bytes(s, &mut start);
        let dst_addr = addr_from_bytes(s, &mut start);
        let origin = addr_from_bytes(s, &mut start);
        let seq_num = u32_from_bytes(s, &mut start);
        let is_last = s[start] != 0;
        start = start + 1;
        let checksum = u32_from_bytes(s, &mut start);
        HBrd { src_addr, dst_addr, origin, seq_num, is_last, checksum }
    }

    fn size() -> (n: usize) {
        HBrd::SIZE
    }

    proof fn lemma_size_fits() {
    }

    proof fn lemma_roundtrip(&self, rest: Seq<u8>) {
        lemma_addr_bytes_len(self.src_addr);
        lemma_addr_bytes_len(self.dst_addr);
        lemma_addr_bytes_len(self.origin);
        lemma_be_bytes_len(self.seq_num as nat, 4);
        lemma_be_bytes_len(self.checksum as nat, 4);
        let s = self.wire().drop_first() + rest;
        assert(s =~= addr_bytes(self.src_addr) + addr_bytes(self.dst_addr) + addr_bytes(self.origin)
            + be_bytes(self.seq_num as nat, 4) + seq![bool_byte(self.is_last)] + be_bytes(self.checksum as nat, 4) + rest);
        assert(s.subrange(0, 6) =~= addr_bytes(self.src_addr));
        assert(s.subrange(6, 12) =~= addr_bytes(self.dst_addr));
        assert(s.subrange(12, 18) =~= addr_bytes(self.origin));
        assert(s.subrange(18, 22) =~= be_bytes(self.seq_num as nat, 4));
        assert(s.subrange(23, 27) =~= be_bytes(self.checksum as nat, 4));
        lemma_addr_roundtrip(self.src_addr);
        lemma_addr_roundtrip(self.dst_addr);
        lemma_addr_roundtrip(self.origin);
        lemma_be_value_of_bytes(self.seq_num as nat, 4);
        lemma_be_value_of_bytes(self.checksum as nat, 4);
        lemma_pow4();
    }
}

impl Header for HLRq {
    open spec fn sum_spec(&self) -> nat {
        wrap32(addr_sum(self.src_addr) + addr_sum(self.dst_addr) + self.seq_num as nat + bool_byte(self.is_last) as nat)
    }

    open spec fn wire(&self) -> Seq<u8> {
        seq![LREQ] + addr_bytes(self.src_addr) + addr_bytes(self.dst_addr) + be_bytes(self.seq_num as nat, 4)
            + seq![bool_byte(self.is_last)] + be_bytes(self.checksum as nat, 4)
    }

    open spec fn parse(s: Seq<u8>) -> HLRq {
        HLRq {
            src_addr: addr_at(s, 0),
            dst_addr: addr_at(s, 6),
            seq_num: u32_at(s, 12),
            is_last: s[16] != 0,
            checksum: u32_at(s, 17),
        }
    }

    open spec fn size_spec() -> nat {
        21
    }

    open spec fn is_v4(&self) -> bool {
        self.src_addr.is_v4() && self.dst_addr.is_v4()
    }

    fn checksum(header: &HLRq) -> (sum: u32) {
        let a = sum_addr(header.src_addr);
        let b = sum_addr(header.dst_addr);
        let mut sum: u32 = 0;
        sum = wrapping_accumulate(sum, a, Ghost(0));
        sum = wrapping_accumulate(sum, b, Ghost(a as nat));
        sum = wrapping_accumulate(sum, header.seq_num, Ghost(a as nat + b as nat));
        sum = wrapping_accumulate(sum, header.is_last as u32, Ghost(a as nat + b as nat + header.seq_num as nat));
        sum
    }

    fn to_bytes(&self) -> (bytes: Vec<u8>) {
        let mut bytes = Vec::new();
        bytes.push(LREQ);
        let src = addr_to_bytes(self.src_addr);
        bytes.extend_from_slice(src.as_slice());
        let dst = addr_to_bytes(self.dst_addr);
        bytes.extend_from_slice(dst.as_slice());
        push_be(&mut bytes, self.seq_num as u128, 4);
        bytes.push(self.is_last as u8);
        push_be(&mut bytes, self.checksum as u128, 4);
        proof {
            assert(bytes@ =~= self.wire());
        }
        bytes
    }

    fn from_bytes(bytes: Vec<u8>) -> (h: HLRq) {
        let s = bytes.as_slice();
        let mut start: usize = 0;
        let src_addr = addr_from_bytes(s, &mut start);
        let dst_addr = addr_from_bytes(s, &mut start);
        let seq_num = u32_from_bytes(s, &mut start);
        let is_last = s[start] != 0;
        start = start + 1;
        let checksum = u32_from_bytes(s, &mut start);
        HLRq { src_addr, dst_addr, seq_num, is_last, checksum }
    }

    fn size() -> (n: usize) {
        HLRq::SIZE
    }

    proof fn lemma_size_fits() {
    }

    proof fn lemma_roundtrip(&self, rest: Seq<u8>) {
        lemma_addr_bytes_len(self.src_addr);
        lemma_addr_bytes_len(self.dst_addr);
        lemma_be_bytes_len(self.seq_num as nat, 4);
        lemma_be_bytes_len(self.checksum as nat, 4);
        let s = self.wire().drop_first() + rest;
        assert(s =~= addr_bytes(self.src_addr) + addr_bytes(self.dst_addr) + be_bytes(self.seq_num as nat, 4)
            + seq![bool_byte(self.is_last)] + be_bytes(self.checksum as nat, 4) + rest);
        assert(s.subrange(0, 6) =~= addr_bytes(self.src_addr));
        assert(s.subrange(6, 12) =~= addr_bytes(self.dst_addr));
        assert(s.subrange(12, 16) =~= be_bytes(self.seq_num as nat, 4));
        assert(s.subrange(17, 21) =~= be_bytes(self.checksum as nat, 4));
        lemma_addr_roundtrip(self.src_addr);
        lemma_addr_roundtrip(self.dst_addr);
        lemma_be_value_of_bytes(self.seq_num as nat, 4);
        lemma_be_value_of_bytes(self.checksum as nat, 4);
        lemma_pow4();
    }
}

impl Header for Ack {
    open spec fn sum_spec(&self) -> nat {
        wrap32(addr_sum(self.src_addr) + addr_sum(self.dst_addr) + self.seq_num as nat)
    }

    open spec fn wire(&self) -> Seq<u8> {
        seq![ACK] + addr_bytes(self.src_addr) + addr_bytes(self.dst_addr) + be_bytes(self.seq_num as nat, 4)
            + be_bytes(self.checksum as nat, 4)
    }

    open spec fn parse(s: Seq<u8>) -> Ack {
        Ack {
            src_addr: addr_at(s, 0),
            dst_addr: addr_at(s, 6),
            seq_num: u32_at(s, 12),
            checksum: u32_at(s, 16),
        }
    }

    open spec fn size_spec() -> nat {
        20
    }

    open spec fn is_v4(&self) -> bool {
        self.src_addr.is_v4() && self.dst_addr.is_v4()
    }

    fn checksum(header: &Ack) -> (sum: u32) {
        let a = sum_addr(header.src_addr);
        let b = sum_addr(header.dst_addr);
        let mut sum: u32 = 0;
        sum = wrapping_accumulate(sum, a, Ghost(0));
        sum = wrapping_accumulate(sum, b, Ghost(a as nat));
        sum = wrapping_accumulate(sum, header.seq_num, Ghost(a as nat + b as nat));
        sum
    }

    fn to_bytes(&self) -> (bytes: Vec<u8>) {
        let mut bytes = Vec::new();
        bytes.push(ACK);
        let src = addr_to_bytes(self.src_addr);
        bytes.extend_from_slice(src.as_slice());
        let dst = addr_to_bytes(self.dst_addr);
        bytes.extend_from_slice(dst.as_slice());
        push_be(&mut bytes, self.seq_num as u128, 4);
        push_be(&mut bytes, self.checksum as u128, 4);
        proof {
            assert(bytes@ =~= self.wire());
        }
        bytes
    }

    fn from_bytes(bytes: Vec<u8>) -> (h: Ack) {
        let s = bytes.as_slice();
        let mut start: usize = 0;
        let src_addr = addr_from_bytes(s, &mut start);
        let dst_addr = addr_from_bytes(s, &mut start);
        let seq_num = u32_from_bytes(s, &mut start);
        let checksum = u32_from_bytes(s, &mut start);
        Ack { src_addr, dst_addr, seq_num, checksum }
    }

    fn size() -> (n: usize) {
        Ack::SIZE
    }

    proof fn lemma_size_fits() {
    }

    proof fn lemma_roundtrip(&self, rest: Seq<u8>) {
        lemma_addr_bytes_len(self.src_addr);
        lemma_addr_bytes_len(self.dst_addr);
        lemma_be_bytes_len(self.seq_num as nat, 4);
        lemma_be_bytes_len(self.checksum as nat, 4);
        let s = self.wire().drop_first() + rest;
        assert(s =~= addr_bytes(self.src_addr) + addr_bytes(self.dst_addr) + be_bytes(self.seq_num as nat, 4)
            + be_bytes(self.checksum as nat, 4) + rest);
        assert(s.subrange(0, 6) =~= addr_bytes(self.src_addr));
        assert(s.subrange(6, 12) =~= addr_bytes(self.dst_addr));
        assert(s.subrange(12, 16) =~= be_bytes(self.seq_num as nat, 4));
        assert(s.subrange(16, 20) =~= be_bytes(self.checksum as nat, 4));
        lemma_addr_roundtrip(self.src_addr);
        lemma_addr_roundtrip(self.dst_addr);
        lemma_be_value_of_bytes(self.seq_num as nat, 4);
        lemma_be_value_of_bytes(self.checksum as nat, 4);
        lemma_pow4();
    }
}

impl Header for AckBrd {
    open spec fn sum_spec(&self) -> nat {
        wrap32(addr_sum(self.src_addr) + addr_sum(self.dst_addr) + addr_sum(self.origin) + self.seq_num as nat)
    }

    open spec fn wire(&self) -> Seq<u8> {
        seq![ACK_BD] + addr_bytes(self.src_addr) + addr_bytes(self.dst_addr) + addr_bytes(self.origin)
            + be_bytes(self.seq_num as nat, 4) + be_bytes(self.checksum as nat, 4)
    }

    open spec fn parse(s: Seq<u8>) -> AckBrd {
        AckBrd {
            src_addr: addr_at(s, 0),
            dst_addr: addr_at(s, 6),
            origin: addr_at(s, 12),
            seq_num: u32_at(s, 18),
            checksum: u32_at(s, 22),
        }
    }

    open spec fn size_spec() -> nat {
        26
    }

    open spec fn is_v4(&self) -> bool {
        self.src_addr.is_v4() && self.dst_addr.is_v4() && self.origin.is_v4()
    }

    fn checksum(header: &AckBrd) -> (sum: u32) {
        let a = sum_addr(header.src_addr);
        let b = sum_addr(header.dst_addr);
        let c = sum_addr(header.origin);
        let mut sum: u32 = 0;
        sum = wrapping_accumulate(sum, a, Ghost(0));
        sum = wrapping_accumulate(sum, b, Ghost(a as nat));
        sum = wrapping_accumulate(sum, c, Ghost(a as nat + b as nat));
        sum = wrapping_accumulate(sum, header.seq_num, Ghost(a as nat + b as nat + c as nat));
        sum
    }

    fn to_bytes(&self) -> (bytes: Vec<u8>) {
        let mut bytes = Vec::new();
        bytes.push(ACK_BD);
        let src = addr_to_bytes(self.src_addr);
        bytes.extend_from_slice(src.as_slice());
        let dst = addr_to_bytes(self.dst_addr);
        bytes.extend_from_slice(dst.as_slice());
        let org = addr_to_bytes(self.origin);
        bytes.extend_from_slice(org.as_slice());
        push_be(&mut bytes, self.seq_num as u128, 4);
        push_be(&mut bytes, self.checksum as u128, 4);
        proof {
            assert(bytes@ =~= self.wire());
        }
        bytes
    }

    fn from_bytes(bytes: Vec<u8>) -> (h: AckBrd) {
        let s = bytes.as_slice();
        let mut start: usize = 0;
        let src_addr = addr_from_bytes(s, &mut start);
        let dst_addr = addr_from_bytes(s, &mut start);
        let origin = addr_from_bytes(s, &mut start);
        let seq_num = u32_from_bytes(s, &mut start);
        let checksum = u32_from_bytes(s, &mut start);
        AckBrd { src_addr, dst_addr, origin, seq_num, checksum }
    }

    fn size() -> (n: usize) {
        AckBrd::SIZE
    }

    proof fn lemma_size_fits() {
    }

    proof fn lemma_roundtrip(&self, rest: Seq<u8>) {
        lemma_addr_bytes_len(self.src_addr);
        lemma_addr_bytes_len(self.dst_addr);
        lemma_addr_bytes_len(self.origin);
        lemma_be_bytes_len(self.seq_num as nat, 4);
        lemma_be_bytes_len(self.checksum as nat, 4);
        let s = self.wire().drop_first() + rest;
        assert(s =~= addr_bytes(self.src_addr) + addr_bytes(self.dst_addr) + addr_bytes(self.origin)
            + be_bytes(self.seq_num as nat, 4) + be_bytes(self.checksum as nat, 4) + rest);
        assert(s.subrange(0, 6) =~= addr_bytes(self.src_addr));
        assert(s.subrange(6, 12) =~= addr_bytes(self.dst_addr));
        assert(s.subrange(12, 18) =~= addr_bytes(self.origin));
        assert(s.subrange(18, 22) =~= be_bytes(self.seq_num as nat, 4));
        assert(s.subrange(22, 26) =~= be_bytes(self.checksum as nat, 4));
        lemma_addr_roundtrip(self.src_addr);
        lemma_addr_roundtrip(self.dst_addr);
        lemma_addr_roundtrip(self.origin);
        lemma_be_value_of_bytes(self.seq_num as nat, 4);
        lemma_be_value_of_bytes(self.checksum as nat, 4);
        lemma_pow4();
    }
}

/// An acknowledgement format.
pub trait IsAck: Header {}

impl IsAck for Ack {}

impl IsAck for AckBrd {}

/// The addresses that a header is made from, as plain values.
pub open spec fn addr_values(addrs: Seq<&SocketAddr>) -> Seq<SocketAddr> {
    addrs.map_values(|a: &SocketAddr| *a)
}

/// A header that carries a piece of a message and is acknowledged.
pub trait DataHeader: Header {
    type AckType: IsAck;

    /// How many addresses `new` reads from its list.
    spec fn addr_count() -> nat;

    /// The header that `new` makes: the addresses in order, checksum zero.
    spec fn made(addrs: Seq<SocketAddr>, seq_num: u32, is_last: bool) -> Self;

    /// The acknowledgement of this header.
    spec fn ack_spec(&self) -> Self::AckType;

    spec fn last_spec(&self) -> bool;

    spec fn seq_spec(&self) -> u32;

    spec fn checksum_spec(&self) -> u32;

    /// This header with another checksum.
    spec fn with_checksum(&self, checksum: u32) -> Self;

    fn new(addr: &Vec<&SocketAddr>, seq_num: u32, is_last: bool) -> (h: Self)
        requires
            addr@.len() >= Self::addr_count(),
        ensures
            h == Self::made(addr_values(addr@), seq_num, is_last),
    ;

    fn get_ack(&self) -> (ack: Self::AckType)
        ensures
            ack == self.ack_spec(),
    ;

    fn is_last(&self) -> (b: bool)
        ensures
            b == self.last_spec(),
    ;

    fn set_checksum(&mut self, checksum: u32)
        ensures
            *final(self) == old(self).with_checksum(checksum),
    ;

    /// A made header has the sequence number and the last mark it was made with.
    proof fn lemma_made(addrs: Seq<SocketAddr>, seq_num: u32, is_last: bool)
        ensures
            Self::made(addrs, seq_num, is_last).seq_spec() == seq_num,
            Self::made(addrs, seq_num, is_last).last_spec() == is_last,
            (forall|i: int| 0 <= i < Self::addr_count() ==> #[trigger] addrs[i].is_v4()) ==> Self::made(
                addrs,
                seq_num,
                is_last,
            ).is_v4(),
    ;

    /// Setting the checksum changes the checksum field alone: the checksum of
    /// the fields stays.
    proof fn lemma_with_checksum(&self, checksum: u32)
        ensures
            self.with_checksum(checksum).checksum_spec() == checksum,
            self.with_checksum(checksum).sum_spec() == self.sum_spec(),
            self.with_checksum(checksum).seq_spec() == self.seq_spec(),
            self.with_checksum(checksum).last_spec() == self.last_spec(),
            self.with_checksum(checksum).ack_spec() == self.ack_spec(),
            self.with_checksum(checksum).is_v4() == self.is_v4(),
    ;
}

/// The acknowledgement of a point-to-point header: the addresses swapped, the
/// sequence number kept, the checksum over the acknowledgement's fields.
pub open spec fn ack_of(src_addr: SocketAddr, dst_addr: SocketAddr, seq_num: u32) -> Ack {
    let a = Ack { src_addr: dst_addr, dst_addr: src_addr, seq_num, checksum: 0 };
    Ack { checksum: a.sum_spec() as u32, ..a }
}

/// The acknowledgement of a broadcast header; the origin is kept.
pub open spec fn ack_brd_of(src_addr: SocketAddr, dst_addr: SocketAddr, origin: SocketAddr, seq_num: u32) -> AckBrd {
    let a = AckBrd { src_addr: dst_addr, dst_addr: src_addr, origin, seq_num, checksum: 0 };
    AckBrd { checksum: a.sum_spec() as u32, ..a }
}

impl DataHeader for HSnd {
    type AckType = Ack;

    open spec fn addr_count() -> nat {
        2
    }

    open spec fn made(addrs: Seq<SocketAddr>, seq_num: u32, is_last: bool) -> HSnd {
        HSnd { src_addr: addrs[0], dst_addr: addrs[1], seq_num, is_last, checksum: 0 }
    }

    open spec fn ack_spec(&self) -> Ack {
        ack_of(self.src_addr, self.dst_addr, self.seq_num)
    }

    open spec fn last_spec(&self) -> bool {
        self.is_last
    }

    open spec fn seq_spec(&self) -> u32 {
        self.seq_num
    }

    open spec fn checksum_spec(&self) -> u32 {
        self.checksum
    }

    open spec fn with_checksum(&self, checksum: u32) -> HSnd {
        HSnd { checksum, ..*self }
    }

    fn new(addr: &Vec<&SocketAddr>, seq_num: u32, is_last: bool) -> (h: HSnd) {
        HSnd { src_addr: *addr[0], dst_addr: *addr[1], seq_num, is_last, checksum: 0 }
    }

    fn get_ack(&self) -> (ack: Ack) {
        let mut ack = Ack { src_addr: self.dst_addr, dst_addr: self.src_addr, seq_num: self.seq_num, checksum: 0 };
        ack.checksum = Ack::checksum(&ack);
        ack
    }

    fn is_last(&self) -> (b: bool) {
        self.is_last
    }

    fn set_checksum(&mut self, checksum: u32) {
        self.checksum = checksum;
    }

    proof fn lemma_made(addrs: Seq<SocketAddr>, seq_num: u32, is_last: bool) {
    }

    proof fn lemma_with_checksum(&self, checksum: u32) {
    }
}

impl DataHeader for HBrd {
    type AckType = AckBrd;

    open spec fn addr_count() -> nat {
        3
    }

    open spec fn made(addrs: Seq<SocketAddr>, seq_num: u32, is_last: bool) -> HBrd {
        HBrd { src_addr: addrs[0], dst_addr: addrs[1], origin: addrs[2], seq_num, is_last, checksum: 0 }
    }

    open spec fn ack_spec(&self) -> AckBrd {
        ack_brd_of(self.src_addr, self.dst_addr, self.origin, self.seq_num)
    }

    open spec fn last_spec(&self) -> bool {
        self.is_last
    }

    open spec fn seq_spec(&self) -> u32 {
        self.seq_num
    }

    open spec fn checksum_spec(&self) -> u32 {
        self.checksum
    }

    open spec fn with_checksum(&self, checksum: u32) -> HBrd {
        HBrd { checksum, ..*self }
    }

    fn new(addr: &Vec<&SocketAddr>, seq_num: u32, is_last: bool) -> (h: HBrd) {
        HBrd { src_addr: *addr[0], dst_addr: *addr[1], origin: *addr[2], seq_num, is_last, checksum: 0 }
    }

    fn get_ack(&self) -> (ack: AckBrd) {
        let mut ack = AckBrd {
            src_addr: self.dst_addr,
            dst_addr: self.src_addr,
            origin: self.origin,
            seq_num: self.seq_num,
            checksum: 0,
        };
        ack.checksum = AckBrd::checksum(&ack);
        ack
    }

    fn is_last(&self) -> (b: bool) {
        self.is_last
    }

    fn set_checksum(&mut self, checksum: u32) {
        self.checksum = checksum;
    }

    proof fn lemma_made(addrs: Seq<SocketAddr>, seq_num: u32, is_last: bool) {
    }

    proof fn lemma_with_checksum(&self, checksum: u32) {
    }
}

impl DataHeader for HLRq {
    type AckType = Ack;

    open spec fn addr_count() -> nat {
        2
    }

    open spec fn made(addrs: Seq<SocketAddr>, seq_num: u32, is_last: bool) -> HLRq {
        HLRq { src_addr: addrs[0], dst_addr: addrs[1], seq_num, is_last, checksum: 0 }
    }

    open spec fn ack_spec(&self) -> Ack {
        ack_of(self.src_addr, self.dst_addr, self.seq_num)
    }

    open spec fn last_spec(&self) -> bool {
        self.is_last
    }

    open spec fn seq_spec(&self) -> u32 {
        self.seq_num
    }

    open spec fn checksum_spec(&self) -> u32 {
        self.checksum
    }

    open spec fn with_checksum(&self, checksum: u32) -> HLRq {
        HLRq { checksum, ..*self }
    }

    fn new(addr: &Vec<&SocketAddr>, seq_num: u32, is_last: bool) -> (h: HLRq) {
        HLRq { src_addr: *addr[0], dst_addr: *addr[1], seq_num, is_last, checksum: 0 }
    }

    fn get_ack(&self) -> (ack: Ack) {
        let mut ack = Ack { src_addr: self.dst_addr, dst_addr: self.src_addr, seq_num: self.seq_num, checksum: 0 };
        ack.checksum = Ack::checksum(&ack);
        ack
    }

    fn is_last(&self) -> (b: bool) {
        self.is_last
    }

    fn set_checksum(&mut self, checksum: u32) {
        self.checksum = checksum;
    }

    proof fn lemma_made(addrs: Seq<SocketAddr>, seq_num: u32, is_last: bool) {
    }

    proof fn lemma_with_checksum(&self, checksum: u32) {
    }
}

} // verus!
