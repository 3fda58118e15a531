use relcomm::addr::{addr_from_bytes, addr_to_bytes, sum_addr, u32_from_bytes, IpAddr, SocketAddr};
use relcomm::relcomm::flags::{Flags, ACK, BRD, HB, LST};
use relcomm::relcomm::header::{Header, HEADER_SIZE};
use relcomm::relcomm::node::{Node, NodeState};
use relcomm::relcomm::packet::{Packet, BUFFER_SIZE, CHUNK_SIZE};
use relcomm::relcomm::channels::validate_message;

const LOCAL: u32 = 0x7f00_0001;

fn local(port: u16) -> SocketAddr {
    SocketAddr::new(IpAddr::V4(LOCAL), port)
}

#[test]
fn address_wire_form() {
    let bytes = addr_to_bytes(local(3000));
    assert_eq!(bytes, vec![127, 0, 0, 1, 0x0b, 0xb8]);
    let mut start = 0usize;
    let back = addr_from_bytes(&bytes, &mut start);
    assert_eq!(back, local(3000));
    assert_eq!(start, 6);
}

#[test]
fn address_sum_wraps() {
    assert_eq!(sum_addr(local(3000)), 2130709433);
    let high = SocketAddr::new(IpAddr::V4(u32::MAX), 2);
    assert_eq!(sum_addr(high), 1);
    let v6 = SocketAddr::new(IpAddr::V6(0x1_0000_0005), 1);
    assert_eq!(sum_addr(v6), 6);
}

#[test]
fn u32_reads_big_endian() {
    let bytes = [0u8, 0, 1, 2, 9];
    let mut start = 0usize;
    assert_eq!(u32_from_bytes(&bytes, &mut start), 258);
    assert_eq!(start, 4);
}

fn sample_header() -> Header {
    Header::new(local(3000), local(3001), local(3000), 5, Flags { value: LST }, 0)
}

#[test]
fn header_checksum_value() {
    assert_eq!(Header::checksum(&sample_header()), 2097161011);
}

#[test]
fn header_roundtrip() {
    let mut h = sample_header();
    h.checksum = Header::checksum(&h);
    let bytes = h.to_bytes();
    assert_eq!(bytes.len(), HEADER_SIZE);
    let arr: [u8; 27] = bytes.clone().try_into().unwrap();
    let back = Header::from_bytes(arr);
    assert_eq!(back.to_bytes(), bytes);
    assert_eq!(back.seq_num, 5);
    assert_eq!(back.origin, local(3000));
    assert!(back.is_last());
}

#[test]
fn header_ack_swaps_addresses() {
    let ack = sample_header().get_ack();
    assert_eq!(ack.src_addr, local(3001));
    assert_eq!(ack.dst_addr, local(3000));
    assert_eq!(ack.flags.value, LST | ACK);
    assert!(ack.is_ack());
    assert_eq!(ack.checksum, 2097161012);
}

#[test]
fn header_flag_queries() {
    let h = Header::new(local(1), local(2), local(1), 0, Flags { value: BRD | HB }, 0);
    assert!(h.is_brd());
    assert!(h.is_heartbeat());
    assert!(!h.is_last());
    assert!(!h.is_ack());
}

#[test]
fn flags_text() {
    assert_eq!(Flags { value: ACK | LST }.to_string(), "ACK LST ");
    assert_eq!(Flags { value: 0 }.to_string(), "");
    assert_eq!(Flags { value: BRD | HB }.to_string(), "BRD HB ");
    assert!(Flags { value: 3 }.is_set(Flags { value: LST }));
    assert!(!Flags { value: 1 }.is_set(Flags { value: LST }));
    assert_eq!((Flags { value: 1 } | Flags { value: 2 }).value, 3);
    assert_eq!((Flags { value: 3 } & Flags { value: 2 }).value, 2);
    assert_eq!((!Flags { value: 1 }).value, 254);
    assert_eq!(Flags::from(7u8).value, 7);
}

#[test]
fn packet_checksum_and_validation() {
    let p = Packet::new(local(3000), local(3001), local(3000), 5, true, false, false, false, false, b"hi".to_vec());
    assert_eq!(p.header.checksum, 2097161220);
    assert!(validate_message(&p));
    let mut bad = p.clone();
    bad.data[0] = b'x';
    assert!(!validate_message(&bad));
}

#[test]
fn packet_roundtrip_through_buffer() {
    let p = Packet::new(local(3000), local(3002), local(3001), 9, false, false, true, false, false, b"hello".to_vec());
    let bytes = p.to_bytes();
    let mut buffer = [0u8; 1024];
    buffer[..bytes.len()].copy_from_slice(&bytes);
    let back = Packet::from_bytes(buffer, bytes.len()).unwrap();
    assert_eq!(back.data, b"hello".to_vec());
    assert_eq!(back.header.to_bytes(), p.header.to_bytes());
    assert!(validate_message(&back));
}

#[test]
fn packet_ack_has_no_data() {
    let p = Packet::new(local(3000), local(3001), local(3000), 2, false, false, false, false, false, vec![1, 2, 3]);
    let ack = p.get_ack();
    assert!(ack.data.is_empty());
    assert!(ack.header.is_ack());
    assert_eq!(ack.header.seq_num, 2);
}

#[test]
fn message_is_cut_in_chunks() {
    let data: Vec<u8> = (0..2000u32).map(|i| (i % 251) as u8).collect();
    let packets = Packet::packets_from_message(local(3000), local(3001), local(3000), data.clone(), 10, false);
    assert_eq!(packets.len(), 3);
    assert_eq!(packets[0].data.len(), CHUNK_SIZE);
    assert_eq!(packets[1].data.len(), CHUNK_SIZE);
    assert_eq!(packets[2].data.len(), 2000 - 2 * CHUNK_SIZE);
    let seqs: Vec<u32> = packets.iter().map(|p| p.header.seq_num).collect();
    assert_eq!(seqs, vec![10, 11, 12]);
    let lasts: Vec<bool> = packets.iter().map(|p| p.header.is_last()).collect();
    assert_eq!(lasts, vec![false, false, true]);
    let joined: Vec<u8> = packets.iter().flat_map(|p| p.data.clone()).collect();
    assert_eq!(joined, data);
    assert!(packets.iter().all(|p| validate_message(p)));
    assert!(HEADER_SIZE + CHUNK_SIZE <= BUFFER_SIZE);
}

#[test]
fn empty_message_has_no_packets() {
    let packets = Packet::packets_from_message(local(3000), local(3001), local(3000), Vec::new(), 0, false);
    assert!(packets.is_empty());
}

#[test]
fn syn_and_heartbeat_packets() {
    let syn = Packet::get_syn(local(3000), local(3001), 4);
    assert!(syn.header.is_syn());
    assert!(syn.data.is_empty());
    let hb = Packet::heart_beat(&Node::new(local(3002), 2), local(3000));
    assert!(hb.header.is_heartbeat());
    assert_eq!(hb.header.seq_num, 2);
    assert!(validate_message(&hb));
}

#[test]
fn texts_of_node_and_packet() {
    let mut n = Node::new(local(3003), 3);
    assert_eq!(n.state, NodeState::Unborn);
    assert_eq!(n.to_string(), "Agent 3 -> Unborn <-");
    n.set_as_dead();
    assert!(n.is_dead());
    assert_eq!(n.to_string(), "Agent 3 -> Dead <-");
    assert_eq!(NodeState::Alive.to_string(), "Alive");
    assert_eq!(NodeState::Suspect.to_string(), "Suspect");
    let p = Packet::new(local(3000), local(3001), local(3002), 7, false, false, false, false, false, Vec::new());
    assert_eq!(p.to_string(), "Packet 7: 3000 -> 3001, origin: 3002");
}

#[test]
fn ack_of_ack_restores_addresses() {
    let h = sample_header();
    let back = h.get_ack().get_ack();
    assert_eq!(back.src_addr, h.src_addr);
    assert_eq!(back.dst_addr, h.dst_addr);
    assert_eq!(back.origin, h.origin);
    assert_eq!(back.seq_num, h.seq_num);
    assert_eq!(back.flags.value, h.flags.value | ACK);
    assert_eq!(back.checksum, Header::checksum(&back));
}
