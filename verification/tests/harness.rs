use relcomm::addr::{IpAddr, SocketAddr};
use relcomm::harness::actions::{
    all_tests, broadcast_test_1, broadcast_test_4, broadcast_test_6, send_test_1, send_test_2, send_test_3,
    send_test_4, Action, ReceiveAction, SendAction,
};
use relcomm::harness::agent::{early_counts, ender_of, is_expected, receive_plan, split_actions, Ender};
use relcomm::harness::expected::{can_check_count, can_expect, check_count, count_deaths, get_expected};
use relcomm::harness::group::local_group;
use relcomm::harness::messages::MSG_0;
use relcomm::harness::plans;
use relcomm::harness::report::{calculate_test, parse_result_line, ResultLine};
use relcomm::relcomm::node::NodeState;

#[test]
fn scenario_shapes() {
    let t = send_test_1();
    assert_eq!(t.len(), 2);
    assert_eq!(t[0], vec![Action::Send(SendAction::Send { destination: 1, message: MSG_0.to_string() })]);
    assert_eq!(t[1], vec![Action::Receive(ReceiveAction::Receive { message: MSG_0.to_string() })]);
    assert_eq!(send_test_4()[1], vec![Action::Die()]);
    assert_eq!(broadcast_test_1().len(), 10);
    assert_eq!(broadcast_test_6()[3][0], Action::Send(SendAction::Broadcast { message: "2".to_string() }));
    let all = all_tests();
    let names: Vec<&str> = all.iter().map(|(n, _)| *n).collect();
    assert_eq!(
        names,
        vec![
            "send_1", "send_2", "send_3", "send_4", "broadcast_1", "broadcast_2", "broadcast_3",
            "broadcast_4", "broadcast_5", "broadcast_6"
        ]
    );
    assert_eq!(all[8].1[0], vec![Action::Receive(ReceiveAction::DieAfterReceive { after_n_messages: 0 })]);
}

#[test]
fn single_object_scenarios() {
    let t = plans::send_test_1();
    assert_eq!(t[0], vec![plans::Action::Send { destination: 1, message: "message_0".to_string() }]);
    assert_eq!(t[1], vec![plans::Action::Receive { message: "message_0".to_string() }]);
}

#[test]
fn expected_counts() {
    assert_eq!(get_expected(&send_test_1()), (vec![1, 0], vec![0, 1], vec![0, 0]));
    assert_eq!(get_expected(&send_test_2()), (vec![1, 1, 0], vec![0, 1, 1], vec![0, 0, 0]));
    assert_eq!(get_expected(&send_test_3()), (vec![1, 1, 0], vec![0, 0, 2], vec![0, 0, 0]));
    // the message to the agent that dies is never received: taken off the sender
    assert_eq!(get_expected(&send_test_4()), (vec![0, 0], vec![0, 0], vec![0, 1]));
    let (s, r, d) = get_expected(&broadcast_test_4());
    assert_eq!(s, {
        let mut v = vec![0; 10];
        v[0] = 10;
        v
    });
    assert_eq!(r, vec![1; 10]);
    assert_eq!(d[0], 1);
    assert_eq!(d[1..].iter().sum::<usize>(), 0);
}

#[test]
fn expected_counts_receive_first() {
    let (s, r, d) = get_expected(&broadcast_test_1());
    let mut sends = vec![0; 10];
    sends[1] = 10;
    assert_eq!(s, sends);
    assert_eq!(r, vec![1; 10]);
    assert_eq!(d, vec![0; 10]);
}

#[test]
fn expected_counts_domain() {
    assert!(can_expect(&send_test_1()));
    assert!(can_expect(&send_test_4()));
    assert!(can_expect(&broadcast_test_4()));
    // a receive listed before the matching broadcast counts all the same
    assert!(can_expect(&broadcast_test_1()));
    assert!(can_expect(&broadcast_test_6()));
    for (name, test) in all_tests() {
        assert!(can_expect(&test), "{}", name);
    }
    let over = vec![
        vec![Action::Send(SendAction::Send { destination: 1, message: "a".to_string() })],
        vec![
            Action::Send(SendAction::Send { destination: 0, message: "b".to_string() }),
            Action::Send(SendAction::Send { destination: 0, message: "c".to_string() }),
        ],
    ];
    // three messages never received, but agent 0 sent only one
    assert!(!can_expect(&over));
}

#[test]
fn counts_within_deaths() {
    assert!(check_count(3, 3, 0));
    assert!(check_count(2, 3, 1));
    assert!(check_count(4, 3, 1));
    assert!(!check_count(1, 3, 1));
    assert!(!check_count(5, 3, 1));
    assert_eq!(count_deaths(&vec![0, 2, 0, 1]), 2);
    assert!(can_check_count(usize::MAX, 3, 1));
    assert!(!can_check_count(0, usize::MAX, 1));
    assert!(can_check_count(7, 7, usize::MAX));
}

#[test]
fn result_lines() {
    assert_eq!(
        parse_result_line("AGENTE 3 -> ENVIOS: 10 - RECEBIDOS: 7\n"),
        Some(ResultLine { agent: 3, sends: 10, receivs: 7 })
    );
    assert_eq!(
        parse_result_line("  AGENTE\t0 ->  ENVIOS: +5 - RECEBIDOS: 0"),
        Some(ResultLine { agent: 0, sends: 5, receivs: 0 })
    );
    assert_eq!(parse_result_line("AGENTE x -> ENVIOS: 1 - RECEBIDOS: 0"), None);
    assert_eq!(parse_result_line("AGENTE 1 -> ENVIOS: 1 -"), None);
    assert_eq!(parse_result_line("AGENTE 1 -> ENVIOS: -1 - RECEBIDOS: 0"), None);
    assert_eq!(parse_result_line("AGENTE 1 -> ENVIOS: 99999999999999999999999 - RECEBIDOS: 0"), None);
    assert_eq!(parse_result_line("AGENTE 1 -> ENVIOS: + - RECEBIDOS: 0"), None);
}

#[test]
fn judging_a_passing_scenario() {
    let lines = vec![
        "AGENTE 1 -> ENVIOS: 0 - RECEBIDOS: 1\n".to_string(),
        "AGENTE 0 -> ENVIOS: 1 - RECEBIDOS: 0\n".to_string(),
    ];
    let expected = get_expected(&send_test_1());
    let out = calculate_test(&lines, 2, "send_1", 0, expected).unwrap();
    assert!(!out.has_errors);
    assert_eq!(
        out.results,
        "AGENTE 0 -> ENVIOS: 1 - RECEBIDOS: 0\nAGENTE 1 -> ENVIOS: 0 - RECEBIDOS: 1\n"
    );
    assert_eq!(
        out.report,
        "\n----------\nTeste 0: send_1\n----------\nTotal de Mensagens Enviadas: 1/1\nTotal de Mensagens Recebidas: 1/1\n"
    );
}

#[test]
fn judging_a_failing_scenario() {
    let lines = vec!["AGENTE 0 -> ENVIOS: 3 - RECEBIDOS: 0\n".to_string()];
    let expected = get_expected(&send_test_4());
    let out = calculate_test(&lines, 2, "send_4", 3, expected).unwrap();
    assert!(out.has_errors);
    assert_eq!(out.results, "AGENTE 0 -> ENVIOS: 3 - RECEBIDOS: 0\n");
    assert_eq!(
        out.report,
        "\n----------\nTeste 3: send_4\n----------\nAgente 1 deveria morrer\nAgente 0: Enviados: 3 - Esperados: 0, com 1 mortes\n----------\nTotal de Mensagens Enviadas: 3/0\nTotal de Mensagens Recebidas: 0/0\n"
    );
}

#[test]
fn judging_within_deaths() {
    // one agent expected to die: a count off by one is accepted
    let lines = vec!["AGENTE 0 -> ENVIOS: 1 - RECEBIDOS: 0\n".to_string()];
    let out = calculate_test(&lines, 2, "send_4", 3, (vec![0, 0], vec![0, 0], vec![0, 1])).unwrap();
    assert!(!out.has_errors);
    let received = vec!["AGENTE 1 -> ENVIOS: 0 - RECEBIDOS: 4\n".to_string()];
    let out = calculate_test(&received, 2, "t", 1, (vec![0, 0], vec![0, 2], vec![0, 0])).unwrap();
    assert!(out.has_errors);
    assert!(out.report.contains("Agente 1: Recebidos: 4 - Esperados: 2, com 0 mortes\n"));
}

#[test]
fn judging_unreadable_results() {
    let bad = vec!["AGENTE 5 -> ENVIOS: 0 - RECEBIDOS: 0\n".to_string()];
    assert!(calculate_test(&bad, 2, "t", 0, (vec![0, 0], vec![0, 0], vec![0, 0])).is_none());
    let garbage = vec!["nothing here\n".to_string()];
    assert!(calculate_test(&garbage, 2, "t", 0, (vec![0, 0], vec![0, 0], vec![0, 0])).is_none());
}

#[test]
fn group_on_this_machine() {
    let g = local_group(3);
    assert_eq!(g.len(), 3);
    assert_eq!(g[2].addr, SocketAddr::new(IpAddr::V4(0x7f00_0001), 3002));
    assert_eq!(g[2].agent_number, 2);
    assert_eq!(g[0].state, NodeState::Unborn);
}

#[test]
fn agent_threads_parts() {
    let t = send_test_2();
    let (s, r) = split_actions(t[1].clone()).unwrap();
    assert_eq!(s, vec![SendAction::Send { destination: 2, message: MSG_0.to_string() }]);
    assert_eq!(r, vec![ReceiveAction::Receive { message: MSG_0.to_string() }]);
    assert!(split_actions(send_test_4()[1].clone()).is_none());
    let (exp, limit) = receive_plan(vec![
        ReceiveAction::Receive { message: "a".to_string() },
        ReceiveAction::DieAfterReceive { after_n_messages: 2 },
        ReceiveAction::Receive { message: "b".to_string() },
    ]);
    assert_eq!(exp, vec!["a".to_string(), "b".to_string()]);
    assert_eq!(limit, 2);
    assert_eq!(receive_plan(Vec::new()).1, u32::MAX);
    assert!(is_expected(&exp, &"b".to_string()));
    assert!(!is_expected(&exp, &"c".to_string()));
}

#[test]
fn early_end_counts() {
    assert_eq!(ender_of("C"), Some(Ender::Sender));
    assert_eq!(ender_of("R"), Some(Ender::Receiver));
    assert_eq!(ender_of("X"), None);
    assert_eq!(ender_of("CR"), None);
    assert_eq!(early_counts(Some(Ender::Sender), 3, 5), (3, 5));
    assert_eq!(early_counts(Some(Ender::Receiver), 3, 5), (5, 3));
    assert_eq!(early_counts(None, 3, 5), (0, 0));
}
