use relcomm::addr::{IpAddr, SocketAddr};
use relcomm::base::config::Broadcast;
use relcomm::base::debug::{AgentState, DebugLog, LoggerState};
use relcomm::base::failure_detection::{FailureDetection, Process};
use relcomm::base::flags::{Flags, ACK, FIN, GSP, LST, SYN};
use relcomm::base::header;
use relcomm::base::message_queue::{MessageQueue, RecvTimeoutError};
use relcomm::base::packet::{Packet, CHUNK_SIZE};
use relcomm::base::reliable_communication::{
    AckExpectations, DataOutcome, DestCounters, Node, ReliableCommunication, SendRequest,
};

const LOCAL: u32 = 0x7f00_0001;

fn local(port: u16) -> SocketAddr {
    SocketAddr::new(IpAddr::V4(LOCAL), port)
}

fn nodes(n: usize) -> Vec<Node> {
    (0..n).map(|i| Node { addr: local(3000 + i as u16), agent_number: i }).collect()
}

#[test]
fn compact_header_roundtrip() {
    let h = header::Header::new(local(3000), local(3001), 42, 2, Some(7));
    let bytes = h.to_bytes();
    assert_eq!(bytes.len(), header::HEADER_SIZE);
    assert_eq!(&bytes[12..16], &[0, 0, 0, 42]);
    assert_eq!(&bytes[17..19], &[0, 7]);
    let back = header::Header::from_bytes(bytes.try_into().unwrap());
    assert_eq!(back.src_addr, local(3000));
    assert_eq!(back.dst_addr, local(3001));
    assert_eq!(back.seq_num, 42);
    assert!(back.is_last());
    assert!(!back.is_ack());
    assert_eq!(back.checksum, 7);
}

#[test]
fn compact_checksum_value() {
    let p = header::Packet::new(local(3000), local(3001), 1, 0, None, b"ab".to_vec());
    // 127.0.0.1 twice, the ports, the sequence number and the data, low 16 bits
    let total: u64 = 2 * 0x7f00_0001u64 + 3000 + 3001 + 1 + 0 + 97 + 98;
    assert_eq!(p.header.checksum as u64, total % 0x1_0000);
    let ack = p.header.get_ack();
    assert!(ack.is_ack());
    assert_eq!(ack.src_addr, local(3001));
    let bytes = p.to_bytes();
    let mut buffer = [0u8; 1024];
    buffer[..bytes.len()].copy_from_slice(&bytes);
    let back = header::Packet::from_bytes(buffer, bytes.len());
    assert_eq!(back.data, b"ab".to_vec());
    assert_eq!(back.header.checksum, p.header.checksum);
}

#[test]
fn base_packet_ack_checksum() {
    let p = Packet::new(local(3000), local(3001), local(3000), 5, true, false, false, b"hi".to_vec());
    assert_eq!(p.header.checksum, 2097161220);
    let ack = p.get_ack();
    assert!(ack.header.is_ack());
    assert!(ack.data.is_empty());
    // the acknowledgement's checksum is the header's own checksum plus one
    assert_eq!(ack.header.checksum, 2097161011 + 1);
}

#[test]
fn base_message_cut() {
    let data = vec![5u8; CHUNK_SIZE + 1];
    let packets = Packet::packets_from_message(local(3000), local(3001), local(3000), data, 3, true);
    assert_eq!(packets.len(), 2);
    assert_eq!(packets[1].data.len(), 1);
    assert!(packets[1].header.is_last());
    assert!(packets[0].header.must_gossip());
    assert_eq!(packets[1].header.seq_num, 4);
}

#[test]
fn base_flags_text() {
    assert_eq!(Flags { value: ACK | LST | GSP }.to_string(), "ACK LST GSP ");
    assert!(Flags { value: GSP }.is_set(Flags { value: GSP }));
}

#[test]
fn queue_is_first_in_first_out() {
    let mut q: MessageQueue<u32> = MessageQueue::new();
    assert_eq!(q.try_recv(), Err(RecvTimeoutError::Timeout));
    assert_eq!(q.send(1), Ok(()));
    assert_eq!(q.send(2), Ok(()));
    assert_eq!(q.recv(), Ok(1));
    assert_eq!(q.try_recv(), Ok(2));
    assert_eq!(q.try_recv(), Err(RecvTimeoutError::Timeout));
}

#[test]
fn debug_texts() {
    let log = DebugLog::new(LoggerState::AgentState { state: AgentState::Down, agent_id: 3 });
    assert_eq!(
        log.get_log(LoggerState::AgentState { state: AgentState::Down, agent_id: 3 }),
        "Agent 3 , state: Down"
    );
    assert_eq!(
        log.get_log(LoggerState::PacketSender {
            state: AgentState::Sending,
            current_agent_id: 1,
            target_agent_id: 2,
            seq_num: 9,
            action: AgentState::WaitingForPacket,
        }),
        "Agent 1 , state: Sending, sending packet 9 to Agent 2. Next action : WaitingForPacket"
    );
    assert_eq!(
        log.get_log(LoggerState::MessageReceiver {
            state: AgentState::Receiving,
            current_agent_id: 0,
            target_agent_id: 4,
            message_id: 12,
            action: AgentState::Completed,
        }),
        "Agent 0 , state: Receiving, receiving message 12 from Agent 4. Next action : Completed"
    );
}

#[test]
fn timeouts_mark_members_down() {
    let mut fd = FailureDetection::new();
    fd.add_process(local(3001), 100);
    fd.add_process(local(3002), 100);
    assert!(fd.is_alive(&local(3001)));
    assert!(!fd.is_alive(&local(3005)));
    assert!(!fd.is_dead(&local(3001), 1100));
    assert!(fd.is_dead(&local(3001), 1101));
    fd.receive_heartbeat(&local(3002), 1000);
    fd.detect_failures(1500);
    assert_eq!(fd.processes[0], Process { addr: local(3001), last_heartbeat: 100, is_alive: false });
    assert!(fd.is_alive(&local(3002)));
    fd.remove_process(&local(3001));
    assert!(!fd.is_alive(&local(3001)));
    assert_eq!(fd.processes.len(), 1);
}

#[test]
fn counters_and_acks() {
    let mut c = DestCounters::new();
    assert_eq!(c.get(local(3001)), 0);
    c.put(local(3001), 5);
    assert_eq!(c.get(local(3001)), 5);
    assert_eq!(c.get(local(3002)), 0);
    let mut acks = AckExpectations::new();
    assert!(!acks.on_ack(local(3001), 0));
    acks.register(local(3001), 2);
    acks.register(local(3001), 9);
    assert!(!acks.on_ack(local(3001), 1));
    assert!(acks.on_ack(local(3001), 2));
    assert!(acks.on_ack(local(3001), 3));
}

#[test]
fn single_object_decisions() {
    let g = nodes(4);
    let rc = ReliableCommunication::new(g[1], g.clone(), 1000, 1000, 5, 2, Broadcast::AB, 500);
    assert_eq!(rc.leader, 0);
    assert_eq!(rc.next_member(), local(3002));
    let friends: Vec<usize> = rc.get_friends().iter().map(|n| n.agent_number).collect();
    assert_eq!(friends, vec![2, 3]);
    let p = rc.plan_delivery(false, local(3003));
    assert!(p.deliver && !p.gossip);
    let p = rc.plan_delivery(true, local(3003));
    assert!(p.deliver && p.gossip && p.warn_waiters);
    let leader = ReliableCommunication::new(g[0], g.clone(), 1000, 1000, 5, 2, Broadcast::AB, 500);
    let p = leader.plan_delivery(true, local(3003));
    assert!(p.rebroadcast && !p.deliver);
    let p = leader.plan_delivery(true, local(3000));
    assert!(p.deliver && !p.rebroadcast);
    let last = ReliableCommunication::new(g[3], g.clone(), 1000, 1000, 5, 3, Broadcast::URB, 500);
    let friends: Vec<usize> = last.get_friends().iter().map(|n| n.agent_number).collect();
    assert_eq!(friends, vec![0, 1, 2]);
}

#[test]
fn single_object_reception() {
    let mut buf: Vec<Packet> = Vec::new();
    let first = Packet::new(local(3001), local(3000), local(3001), 0, false, false, false, b"ab".to_vec());
    let last = Packet::new(local(3001), local(3000), local(3001), 1, true, false, false, b"cd".to_vec());
    assert!(matches!(ReliableCommunication::handle_data(&mut buf, first.clone()), DataOutcome::Buffered));
    assert!(matches!(ReliableCommunication::handle_data(&mut buf, first), DataOutcome::Duplicate));
    match ReliableCommunication::handle_data(&mut buf, last) {
        DataOutcome::Delivered { message, origin, seq_num } => {
            assert_eq!(message, b"abcd".to_vec());
            assert_eq!(origin, local(3001));
            assert_eq!(seq_num, 0);
        },
        _ => panic!("the last packet delivers"),
    }
}

#[test]
fn single_object_requests() {
    let g = nodes(3);
    let mut rc = ReliableCommunication::new(g[0], g.clone(), 1000, 1000, 5, 2, Broadcast::BEB, 500);
    let send = SendRequest {
        destination_address: Some(local(3002)),
        origin_address: None,
        start_sequence_number: None,
        is_broadcast: false,
        data: b"x".to_vec(),
    };
    let m = rc.handle_request(&send);
    assert_eq!(m.len(), 1);
    assert_eq!(m[0][0].header.dst_addr, local(3002));
    let brd = SendRequest {
        destination_address: None,
        origin_address: None,
        start_sequence_number: None,
        is_broadcast: true,
        data: b"x".to_vec(),
    };
    assert_eq!(rc.handle_request(&brd).len(), 3);
    let mut urb = ReliableCommunication::new(g[0], g.clone(), 1000, 1000, 5, 2, Broadcast::URB, 500);
    let gossip = SendRequest {
        destination_address: None,
        origin_address: Some(local(3001)),
        start_sequence_number: None,
        is_broadcast: true,
        data: b"y".to_vec(),
    };
    let m = urb.handle_request(&gossip);
    assert_eq!(m.len(), 2);
    assert_eq!(m[0][0].header.dst_addr, local(3001));
    assert_eq!(m[1][0].header.dst_addr, local(3002));
    assert_eq!(m[0][0].header.origin, local(3001));
    assert_eq!(m[0][0].header.seq_num, 0);
    let again = urb.handle_request(&gossip);
    assert_eq!(again[0][0].header.seq_num, 1);
    assert_eq!(urb.dst_seq_num_cnt.get(local(3000)), 2);
}

#[test]
fn base_flags_bits() {
    assert_eq!(GSP, 16);
    assert_eq!(SYN, 4);
    assert_eq!(FIN, 8);
    assert_eq!(Flags { value: 16 }.to_string(), "GSP ");
    assert_eq!(Flags { value: SYN | FIN }.to_string(), "");
}

#[test]
fn successive_sends_follow_on() {
    let g = nodes(3);
    let mut rc = ReliableCommunication::new(g[0], g.clone(), 1000, 1000, 5, 2, Broadcast::BEB, 500);
    let send = SendRequest {
        destination_address: Some(local(3001)),
        origin_address: None,
        start_sequence_number: None,
        is_broadcast: false,
        data: vec![1u8; CHUNK_SIZE + 1],
    };
    let first = rc.handle_request(&send);
    assert_eq!(first[0].len(), 2);
    assert_eq!(first[0][0].header.seq_num, 0);
    let second = rc.handle_request(&send);
    assert_eq!(second[0][0].header.seq_num, 2);
    assert_eq!(rc.dst_seq_num_cnt.get(local(3001)), 4);
    assert_eq!(rc.dst_seq_num_cnt.get(local(3002)), 0);
}

#[test]
fn single_packet_messages_delivered() {
    let mut buf: Vec<Packet> = Vec::new();
    let one = Packet::new(local(3001), local(3000), local(3001), 0, true, false, false, b"m0".to_vec());
    match ReliableCommunication::handle_data(&mut buf, one) {
        DataOutcome::Delivered { message, seq_num, .. } => {
            assert_eq!(message, b"m0".to_vec());
            assert_eq!(seq_num, 0);
        },
        _ => panic!("a one-packet message is delivered"),
    }
    let two = Packet::new(local(3001), local(3000), local(3001), 1, true, false, false, b"m1".to_vec());
    match ReliableCommunication::handle_data(&mut buf, two) {
        DataOutcome::Delivered { message, seq_num, .. } => {
            assert_eq!(message, b"m1".to_vec());
            assert_eq!(seq_num, 1);
        },
        _ => panic!("the next one-packet message is delivered too"),
    }
    assert_eq!(buf.len(), 1);
}
