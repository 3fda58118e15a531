use relcomm::addr::{IpAddr, SocketAddr};
use relcomm::relcomm::types_header::{Ack, AckBrd, DataHeader, HBrd, HLRq, HSnd, Header, ACK, BD, SD};
use relcomm::relcomm::types_packet::{DataPkt, Get, HasData, Origin, Packet, PacketType};

const LOCAL: u32 = 0x7f00_0001;

fn local(port: u16) -> SocketAddr {
    SocketAddr::new(IpAddr::V4(LOCAL), port)
}

#[test]
fn send_header_wire_form() {
    let a = local(3000);
    let b = local(3001);
    let h = HSnd::new(&vec![&a, &b], 7, true);
    assert_eq!(h.checksum, 0);
    assert_eq!(<HSnd as Header>::size(), 21);
    let bytes = Header::to_bytes(&h);
    assert_eq!(bytes.len(), 22);
    assert_eq!(bytes[0], SD);
    assert_eq!(&bytes[1..7], &[127, 0, 0, 1, 0x0b, 0xb8]);
    assert_eq!(&bytes[13..17], &[0, 0, 0, 7]);
    assert_eq!(bytes[17], 1);
    let back = <HSnd as Header>::from_bytes(bytes[1..].to_vec());
    assert_eq!(back.src_addr, a);
    assert_eq!(back.dst_addr, b);
    assert_eq!(back.seq_num, 7);
    assert!(back.is_last);
}

#[test]
fn send_header_checksum_value() {
    let a = local(3000);
    let b = local(3001);
    let h = HSnd::new(&vec![&a, &b], 5, true);
    // 2130709433 + 2130709434 + 5 + 1, modulo 2^32
    assert_eq!(<HSnd as Header>::checksum(&h), ((2130709433u64 + 2130709434 + 6) % (1u64 << 32)) as u32);
}

#[test]
fn acks_swap_addresses() {
    let a = local(3000);
    let b = local(3001);
    let o = local(3002);
    let h = HSnd::new(&vec![&a, &b], 3, false);
    let ack: Ack = h.get_ack();
    assert_eq!(ack.src_addr, b);
    assert_eq!(ack.dst_addr, a);
    assert_eq!(ack.seq_num, 3);
    assert_eq!(ack.checksum, <Ack as Header>::checksum(&ack));
    let hb = HBrd::new(&vec![&a, &b, &o], 4, true);
    let back: AckBrd = hb.get_ack();
    assert_eq!(back.origin, o);
    assert_eq!(back.src_addr, b);
    assert_eq!(back.checksum, <AckBrd as Header>::checksum(&back));
    assert_eq!(Header::to_bytes(&back).len(), 27);
}

#[test]
fn data_packet_is_valid_when_made() {
    let a = local(3000);
    let b = local(3001);
    let h = HSnd::new(&vec![&a, &b], 0, true);
    let p = <DataPkt<HSnd> as HasData<HSnd>>::new(h, b"abc".to_vec());
    assert_eq!(p.header.checksum, <DataPkt<HSnd> as Packet>::checksum(&p));
    let t = PacketType::Send(p.clone());
    assert!(t.validate_pkt());
    let mut bad = p.clone();
    bad.data[1] = b'z';
    assert!(!PacketType::Send(bad).validate_pkt());
}

#[test]
fn packet_type_roundtrip() {
    let a = local(3000);
    let b = local(3001);
    let o = local(3005);
    let h = HBrd::new(&vec![&a, &b, &o], 12, false);
    let p = <DataPkt<HBrd> as HasData<HBrd>>::new(h, b"broadcast".to_vec());
    let bytes = Packet::to_bytes(&p);
    assert_eq!(bytes[0], BD);
    match PacketType::from_bytes(bytes) {
        PacketType::Broadcast(q) => {
            assert_eq!(q.data, b"broadcast".to_vec());
            assert_eq!(q.header.origin, o);
            assert_eq!(q.header.seq_num, 12);
            assert!(!q.header.is_last);
            assert!(PacketType::Broadcast(q).validate_pkt());
        },
        _ => panic!("wrong kind"),
    }
    let ack = h.get_ack();
    let ack_bytes = Packet::to_bytes(&ack);
    match PacketType::from_bytes(ack_bytes) {
        PacketType::AckBrd(q) => {
            assert_eq!(q.origin, o);
            assert!(PacketType::AckBrd(q).validate_pkt());
        },
        _ => panic!("wrong kind"),
    }
}

#[test]
fn plain_ack_roundtrip() {
    let a = local(3000);
    let b = local(3001);
    let ack = HLRq::new(&vec![&a, &b], 1, true).get_ack();
    let bytes = Packet::to_bytes(&ack);
    assert_eq!(bytes[0], ACK);
    match PacketType::from_bytes(bytes) {
        PacketType::Ack(q) => {
            assert_eq!(q.src_addr, b);
            assert_eq!(q.seq_num, 1);
            assert!(PacketType::Ack(q).validate_pkt());
        },
        _ => panic!("wrong kind"),
    }
}

#[test]
fn message_cut_into_send_packets() {
    let a = local(3000);
    let b = local(3001);
    let data: Vec<u8> = (0..2500u32).map(|i| (i % 200) as u8).collect();
    let pkts = <DataPkt<HSnd> as HasData<HSnd>>::pkts_from_msg(vec![&a, &b], 100, data.clone());
    // 1024 - 1 - 21 = 1002 bytes per packet
    assert_eq!(pkts.len(), 3);
    assert_eq!(pkts[0].data.len(), 1002);
    assert_eq!(relcomm::relcomm::types_packet::Packet::to_bytes(&pkts[0]).len(), 1024);
    assert_eq!(pkts[2].data.len(), 2500 - 2004);
    assert_eq!(pkts[0].header.seq_num, 100);
    assert_eq!(pkts[2].header.seq_num, 102);
    assert!(!pkts[0].header.is_last);
    assert!(pkts[2].header.is_last);
    let joined: Vec<u8> = pkts.iter().flat_map(|p| p.data.clone()).collect();
    assert_eq!(joined, data);
    for p in pkts {
        assert!(PacketType::Send(p).validate_pkt());
    }
    let none = <DataPkt<HSnd> as HasData<HSnd>>::pkts_from_msg(vec![&a, &b], 0, Vec::new());
    assert!(none.is_empty());
}

#[test]
fn getters_and_origins() {
    let a = local(3000);
    let b = local(3001);
    let o = local(3009);
    let p = <DataPkt<HBrd> as HasData<HBrd>>::new(HBrd::new(&vec![&a, &b, &o], 2, true), vec![1]);
    assert_eq!(p.get_src_addr(), a);
    assert_eq!(p.get_dst_addr(), b);
    assert_eq!(p.get_seq_num(), 2);
    assert_eq!(p.type_h(), "Broadcast");
    assert_eq!(p.get_origin_addr(), o);
    let s = <DataPkt<HSnd> as HasData<HSnd>>::new(HSnd::new(&vec![&a, &b], 2, true), vec![1]);
    assert_eq!(s.get_origin_addr(), a);
    assert_eq!(s.type_h(), "Send");
    let ack = s.get_ack();
    assert_eq!(ack.type_h(), "Ack");
    assert_eq!(ack.get_origin_addr(), b);
    let l = <DataPkt<HLRq> as HasData<HLRq>>::new(HLRq::new(&vec![&a, &b], 0, true), vec![]);
    assert_eq!(l.type_h(), "LeaderRequest");
    assert_eq!(p.get_ack().type_h(), "AckBroadcast");
}

#[test]
fn set_checksum_changes_only_checksum() {
    let a = local(3000);
    let b = local(3001);
    let mut h = HLRq::new(&vec![&a, &b], 8, false);
    h.set_checksum(99);
    assert_eq!(h.checksum, 99);
    assert_eq!(h.seq_num, 8);
    assert!(!DataHeader::is_last(&h));
}
