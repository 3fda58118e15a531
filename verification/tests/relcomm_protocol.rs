use relcomm::addr::{IpAddr, SocketAddr};
use relcomm::relcomm::failure_detection::FailureDetection;
use relcomm::relcomm::node::{Node, NodeState};
use relcomm::relcomm::packet::Packet;
use relcomm::relcomm::rec_aux::{Broadcast, RecAux, SendRequestData};
use relcomm::relcomm::rec_listener::{
    handle_data, receive_last_packet, route, AckKey, DataOutcome, ExpectedAcks, OriginBuffers, RecListener, Route,
};
use relcomm::relcomm::rec_sender::{dispatch, find_node, Dispatch, GoBackN, RecSender, SendRound};
use relcomm::relcomm::reliable_communication::{
    ab_step, broadcast_from_name, broadcast_returned, bytes_eq, destination, get_livings, AbStep,
};

const LOCAL: u32 = 0x7f00_0001;

fn local(port: u16) -> SocketAddr {
    SocketAddr::new(IpAddr::V4(LOCAL), port)
}

fn group(n: usize) -> Vec<Node> {
    (0..n).map(|i| Node::new(local(3000 + i as u16), i)).collect()
}

fn data_packet(seq: u32, last: bool, data: &[u8]) -> Packet {
    Packet::new(local(3001), local(3000), local(3001), seq, last, false, false, false, false, data.to_vec())
}

#[test]
fn in_order_packets_deliver_the_message() {
    let mut buffers = OriginBuffers::new();
    match buffers.handle_data(data_packet(0, false, b"hel")) {
        DataOutcome::Buffered => {},
        _ => panic!("first packet should be buffered"),
    }
    match buffers.handle_data(data_packet(1, true, b"lo")) {
        DataOutcome::Delivered { message, origin, seq_num } => {
            assert_eq!(message, b"hello".to_vec());
            assert_eq!(origin, local(3001));
            assert_eq!(seq_num, 0);
        },
        _ => panic!("last packet should deliver"),
    }
}

#[test]
fn out_of_order_and_duplicate_packets() {
    let mut buf: Vec<Packet> = Vec::new();
    let ahead = handle_data(&mut buf, data_packet(3, false, b"x"));
    assert!(matches!(ahead, DataOutcome::Ignored));
    assert!(!ahead.must_ack());
    assert!(buf.is_empty());
    assert!(matches!(handle_data(&mut buf, data_packet(0, false, b"a")), DataOutcome::Buffered));
    let dup = handle_data(&mut buf, data_packet(0, false, b"a"));
    assert!(matches!(dup, DataOutcome::Duplicate));
    assert!(dup.must_ack());
    assert_eq!(buf.len(), 1);
}

#[test]
fn next_message_after_delivery() {
    let mut buf: Vec<Packet> = Vec::new();
    assert!(matches!(handle_data(&mut buf, data_packet(0, true, b"one")), DataOutcome::Delivered { .. }));
    // the last packet stays as the remnant that numbers the next message
    assert_eq!(buf.len(), 1);
    match handle_data(&mut buf, data_packet(1, true, b"two")) {
        DataOutcome::Delivered { message, seq_num, .. } => {
            assert_eq!(message, b"two".to_vec());
            assert_eq!(seq_num, 1);
        },
        _ => panic!("second message should deliver"),
    }
}

#[test]
fn last_packet_merges_buffer() {
    let mut buf = vec![data_packet(4, true, b"old"), data_packet(5, false, b"ab")];
    let (message, origin, seq) = receive_last_packet(&mut buf, &data_packet(6, true, b"cd"));
    assert_eq!(message, b"abcd".to_vec());
    assert_eq!(origin, local(3001));
    assert_eq!(seq, 5);
    assert!(buf.is_empty());
}

#[test]
fn acks_are_forwarded_once() {
    let key = AckKey { dst_addr: local(3001), origin: local(3000) };
    let mut acks = ExpectedAcks::new();
    assert!(!acks.on_ack(key, 0));
    acks.insert(key, 4);
    assert!(!acks.on_ack(key, 3));
    assert!(acks.on_ack(key, 4));
    assert!(!acks.on_ack(key, 4));
    assert!(acks.on_ack(key, 6));
}

#[test]
fn delivery_plans() {
    let g = group(3);
    let host = g[1];
    let urb = RecListener::new(host, Broadcast::URB);
    let p = urb.plan_delivery(&g, true, &local(3000));
    assert!(p.warn_waiters && p.gossip && p.deliver && !p.request_broadcast);
    let beb = RecListener::new(host, Broadcast::BEB);
    let p = beb.plan_delivery(&g, true, &local(3000));
    assert!(p.deliver && !p.gossip && !p.warn_waiters);
    let ab = RecListener::new(host, Broadcast::AB);
    assert_eq!(ab.get_leader_priority(&g, &local(3000)), 3);
    assert_eq!(ab.get_leader_priority(&g, &local(3001)), 2);
    assert_eq!(ab.get_leader_priority(&g, &local(4000)), 0);
    // from the leader: pass on and deliver
    let p = ab.plan_delivery(&g, true, &local(3000));
    assert!(p.deliver && p.gossip && !p.request_broadcast);
    assert!(ab.atm_gossip(&g, &local(3000)));
    // from a member below: a request to broadcast it
    let p = ab.plan_delivery(&g, true, &local(3002));
    assert!(!p.deliver && !p.gossip && p.request_broadcast);
    assert!(!ab.atm_gossip(&g, &local(3002)));
    let p = ab.plan_delivery(&g, false, &local(3002));
    assert!(p.deliver && !p.warn_waiters);
}

#[test]
fn leader_is_first_alive() {
    let mut g = group(3);
    let host = g[2];
    assert_eq!(RecListener::get_leader(&g, &host).agent_number, 2);
    g[1].state = NodeState::Alive;
    g[2].state = NodeState::Alive;
    assert_eq!(RecListener::get_leader(&g, &host).agent_number, 1);
    g[0].state = NodeState::Alive;
    assert_eq!(RecSender::get_leader(&g, &host).agent_number, 0);
    assert_eq!(RecListener::log_peer(&g[0], local(3000), local(3042)), 42);
    assert_eq!(RecListener::log_peer(&g[0], local(3017), local(3000)), 17);
}

#[test]
fn gossip_friends_wrap_around() {
    let g = group(5);
    let sender = RecSender::new(g[3], Broadcast::URB);
    assert_eq!(sender.get_friends(&g), vec![local(3004), local(3000), local(3001)]);
    let mut g2 = group(5);
    g2[4].state = NodeState::Dead;
    assert_eq!(sender.get_friends(&g2), vec![local(3000), local(3001), local(3002)]);
}

#[test]
fn messages_of_requests() {
    let g = group(3);
    let mut sender = RecSender::new(g[0], Broadcast::BEB);
    let data = b"payload".to_vec();
    let msgs = sender.get_messages(&g, &data, SendRequestData::Send { destination_address: local(3002) });
    assert_eq!(msgs.len(), 1);
    assert_eq!(msgs[0][0].header.dst_addr, local(3002));
    assert_eq!(msgs[0][0].header.seq_num, 0);
    let again = sender.get_messages(&g, &data, SendRequestData::Send { destination_address: local(3002) });
    assert_eq!(again[0][0].header.seq_num, 1);
    let brd = sender.get_messages(&g, &data, SendRequestData::StartBroadcast {});
    assert_eq!(brd.len(), 3);
    for (i, m) in brd.iter().enumerate() {
        assert_eq!(m[0].header.dst_addr, local(3000 + i as u16));
        assert!(m[0].header.is_brd());
        assert_eq!(m[0].header.origin, local(3000));
    }
}

#[test]
fn go_back_n_window() {
    let mut gbn = GoBackN::new(8, 100, 5, 10);
    assert_eq!(gbn.window(), (0, 5));
    assert_eq!(gbn.window(), (5, 5));
    gbn.on_ack(101);
    assert_eq!(gbn.base, 2);
    assert_eq!(gbn.window(), (5, 7));
    assert!(!gbn.on_timeout(NodeState::Alive));
    assert_eq!(gbn.next_seq_num, 2);
    assert_eq!(gbn.window(), (2, 7));
    gbn.on_ack(107);
    assert!(gbn.is_done());
    assert!(GoBackN::new(1, 0, 5, 10).on_timeout(NodeState::Dead));
    let mut patient = GoBackN::new(1, 0, 5, 2);
    assert!(!patient.on_timeout(NodeState::Unborn));
    assert!(patient.on_timeout(NodeState::Unborn));
}

#[test]
fn dispatch_and_rounds() {
    assert_eq!(dispatch(NodeState::Dead), Dispatch::Skip);
    assert_eq!(dispatch(NodeState::Unborn), Dispatch::Send { retry_later: true });
    assert_eq!(dispatch(NodeState::Alive), Dispatch::Send { retry_later: false });
    let g = group(3);
    assert_eq!(find_node(&g, &local(3002)), Some(2));
    assert_eq!(find_node(&g, &local(3999)), None);
    let p = data_packet(0, true, b"m");
    let mut kept = vec![vec![p.clone()]];
    let (mut round, all) = SendRound::start(vec![vec![p.clone()], vec![p.clone()]], &mut kept);
    assert_eq!(all.len(), 3);
    assert!(kept.is_empty());
    round.record(true, false, vec![p.clone()]);
    round.record(false, true, vec![p.clone()]);
    round.record(false, false, vec![p.clone()]);
    assert_eq!(round.success_count, 1);
    assert_eq!(round.msg_buffer.len(), 1);
}

#[test]
fn heartbeats_and_misses() {
    let mut g = group(3);
    let (hbs, n) = FailureDetection::get_hbs(&g, &g[0]);
    assert_eq!(n, 3);
    assert_eq!(hbs.len(), 3);
    assert_eq!(hbs[2].header.dst_addr, local(3002));
    assert!(hbs[2].header.is_heartbeat());
    let mut fd = FailureDetection::new(3);
    assert_eq!(fd.hb_miss_cnt, vec![-1, -1, -1]);
    let miss = fd.process_heartbeats(3, &vec![0, 2]);
    assert_eq!(miss, vec![0, 1, 0]);
    assert_eq!(fd.hb_miss_cnt, vec![0, -1, 0]);
    fd.apply_misses(&mut g, &miss, 3);
    assert_eq!(g[1].state, NodeState::Suspect);
    assert_eq!(g[0].state, NodeState::Unborn);
    for _ in 0..3 {
        let miss = fd.process_heartbeats(3, &vec![0, 2]);
        fd.apply_misses(&mut g, &miss, 3);
    }
    assert_eq!(g[1].state, NodeState::Dead);
    FailureDetection::handle_hb(&hbs[0], &mut g);
    assert_eq!(g[0].state, NodeState::Alive);
}

#[test]
fn user_layer_decisions() {
    assert_eq!(broadcast_from_name("BEB"), Some(Broadcast::BEB));
    assert_eq!(broadcast_from_name("URB"), Some(Broadcast::URB));
    assert_eq!(broadcast_from_name("AB"), Some(Broadcast::AB));
    assert_eq!(broadcast_from_name("XYZ"), None);
    let mut g = group(3);
    assert_eq!(destination(&g, 1), Some(local(3001)));
    assert_eq!(destination(&g, 3), None);
    g[2].state = NodeState::Dead;
    assert_eq!(get_livings(&g).len(), 2);
    let mut h = group(4);
    h[1].state = NodeState::Dead;
    let living: Vec<usize> = get_livings(&h).iter().map(|n| n.agent_number).collect();
    assert_eq!(living, vec![0, 2, 3]);
    assert_eq!(broadcast_returned(&b"m".to_vec(), &b"m".to_vec(), &g), Some(2));
    assert_eq!(broadcast_returned(&b"n".to_vec(), &b"m".to_vec(), &g), None);
    assert!(bytes_eq(b"abc", b"abc"));
    assert!(!bytes_eq(b"abc", b"abd"));
    assert_eq!(ab_step(1, 1, 0), AbStep::StartBroadcast);
    assert_eq!(ab_step(0, 1, 1), AbStep::AskLeader);
    assert_eq!(ab_step(0, 1, 0), AbStep::Wait);
}

#[test]
fn preconditions_of_the_threads() {
    let mut g = group(3);
    let mut sender = RecSender::new(g[0], Broadcast::URB);
    let data = vec![7u8; 10];
    assert!(sender.can_plan(&g, data.len(), SendRequestData::Send { destination_address: local(3001) }));
    assert!(sender.can_plan(&g, data.len(), SendRequestData::StartBroadcast {}));
    assert!(sender.can_plan(&g, data.len(), SendRequestData::Gossip { origin: local(3002), seq_num: u32::MAX }));
    assert!(!sender.can_plan(&g, 2000, SendRequestData::Gossip { origin: local(3002), seq_num: u32::MAX }));
    assert!(sender.friends_ok(&g));
    for n in g.iter_mut() {
        n.state = NodeState::Dead;
    }
    assert!(!sender.friends_ok(&g));
    assert!(!sender.can_plan(&g, data.len(), SendRequestData::StartBroadcast {}));
    let g = group(3);
    let msgs = sender.get_messages(&g, &data, SendRequestData::Send { destination_address: local(3001) });
    assert_eq!(msgs[0][0].header.seq_num, 0);

    let mut buffers = OriginBuffers::new();
    assert!(buffers.can_take(local(3001)));
    let p = Packet::new(local(3001), local(3000), local(3001), u32::MAX, false, false, false, false, false, vec![1]);
    let _ = buffers.handle_data(Packet::new(local(3001), local(3000), local(3001), 0, false, false, false, false, false, vec![1]));
    assert!(buffers.can_take(local(3001)));
    assert!(buffers.can_take(p.header.origin));

    let key = AckKey { dst_addr: local(3001), origin: local(3000) };
    let mut acks = ExpectedAcks::new();
    assert_eq!(acks.get(key), None);
    acks.insert(key, 3);
    assert_eq!(acks.get(key), Some(3));
}

#[test]
fn message_through_the_wire_is_delivered_whole() {
    let data: Vec<u8> = (0..2500u32).map(|i| (i % 97) as u8).collect();
    let packets = Packet::packets_from_message(local(3001), local(3000), local(3001), data.clone(), 0, false);
    let mut buffers = OriginBuffers::new();
    let mut delivered = None;
    for p in packets {
        let bytes = p.to_bytes();
        let mut buffer = [0u8; 1024];
        buffer[..bytes.len()].copy_from_slice(&bytes);
        let q = Packet::from_bytes(buffer, bytes.len()).unwrap();
        match buffers.handle_data(q) {
            DataOutcome::Buffered => {},
            DataOutcome::Delivered { message, origin, seq_num } => delivered = Some((message, origin, seq_num)),
            _ => panic!("every packet is expected in order"),
        }
    }
    assert_eq!(delivered, Some((data, local(3001), 0)));
}

#[test]
fn packets_routed_by_flags() {
    let data = data_packet(0, false, b"a");
    assert_eq!(route(&data), Route::Data { broadcast: false });
    let brd = Packet::new(local(3001), local(3000), local(3001), 0, true, false, true, false, false, b"b".to_vec());
    assert_eq!(route(&brd), Route::Data { broadcast: true });
    assert_eq!(route(&data.get_ack()), Route::Ack { broadcast: false });
    assert_eq!(route(&brd.get_ack()), Route::Ack { broadcast: true });
    let hb = Packet::new(local(3001), local(3000), local(3001), 2, false, false, false, true, false, Vec::new());
    assert_eq!(route(&hb), Route::Heartbeat);
}

#[test]
fn empty_transfer_fails() {
    assert!(GoBackN::start(&Vec::new(), 4, 3).is_none());
    let pkts = vec![data_packet(7, false, b"a"), data_packet(8, true, b"b")];
    let g = GoBackN::start(&pkts, 4, 3).unwrap();
    assert_eq!(g, GoBackN::new(2, 7, 4, 3));
    assert!(!g.is_done());
}
