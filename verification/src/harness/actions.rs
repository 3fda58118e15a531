//! What each agent of a scenario does, the scenarios themselves, and what
//! they are expected to achieve.
use vstd::prelude::*;
use crate::harness::messages::{MSG_0, MSG_1, MSG_2};

verus! {

/// What an agent sends.
#[derive(PartialEq, Clone, Debug)]
pub enum SendAction {
    Send { destination: usize, message: String },
    Broadcast { message: String },
    DieAfterSend {},
}

/// What an agent expects to receive.
#[derive(PartialEq, Clone, Debug)]
pub enum ReceiveAction {
    Receive { message: String },
    DieAfterReceive { after_n_messages: u32 },
}

/// One step of an agent's part in a scenario.
#[derive(PartialEq, Clone, Debug)]
pub enum Action {
    Send(SendAction),
    Receive(ReceiveAction),
    Die(),
}

/// An action with its texts as character sequences.
pub enum ActionModel {
    Send { destination: usize, message: Seq<char> },
    Broadcast { message: Seq<char> },
    DieAfterSend,
    Receive { message: Seq<char> },
    DieAfterReceive { after_n_messages: u32 },
    Die,
}

impl Action {
    pub open spec fn model(&self) -> ActionModel {
        match self {
            Action::Send(SendAction::Send { destination, message }) => ActionModel::Send {
                destination: *destination,
                message: message@,
            },
            Action::Send(SendAction::Broadcast { message }) => ActionModel::Broadcast { message: message@ },
            Action::Send(SendAction::DieAfterSend {}) => ActionModel::DieAfterSend,
            Action::Receive(ReceiveAction::Receive { message }) => ActionModel::Receive { message: message@ },
            Action::Receive(ReceiveAction::DieAfterReceive { after_n_messages }) => ActionModel::DieAfterReceive {
                after_n_messages: *after_n_messages,
            },
            Action::Die() => ActionModel::Die,
        }
    }
}

/// A scenario as models: one sequence of actions per agent.
pub open spec fn test_model(t: Seq<Vec<Action>>) -> Seq<Seq<ActionModel>> {
    t.map_values(|a: Vec<Action>| a@.map_values(|x: Action| x.model()))
}

fn send(destination: usize, message: &str) -> (a: Action)
    ensures
        a.model() == (ActionModel::Send { destination, message: message@ }),
{
    Action::Send(SendAction::Send { destination, message: message.to_owned() })
}

fn broadcast(message: &str) -> (a: Action)
    ensures
        a.model() == (ActionModel::Broadcast { message: message@ }),
{
    Action::Send(SendAction::Broadcast { message: message.to_owned() })
}

fn receive(message: &str) -> (a: Action)
    ensures
        a.model() == (ActionModel::Receive { message: message@ }),
{
    Action::Receive(ReceiveAction::Receive { message: message.to_owned() })
}

/// The actions of `send_test_1`.
pub open spec fn spec_send_test_1() -> Seq<Seq<ActionModel>> {
    seq![
        seq![ActionModel::Send { destination: 1, message: MSG_0@ }],
        seq![ActionModel::Receive { message: MSG_0@ }],
    ]
}

/// One sender and one receiver.
pub fn send_test_1() -> (t: Vec<Vec<Action>>)
    ensures
        test_model(t@) == spec_send_test_1(),
{
    let t = vec![
        vec![send(1, MSG_0)],
        vec![receive(MSG_0)],
    ];
    assert(test_model(t@) =~~= spec_send_test_1());
    t
}

/// The actions of `send_test_2`.
pub open spec fn spec_send_test_2() -> Seq<Seq<ActionModel>> {
    seq![
        seq![ActionModel::Send { destination: 1, message: MSG_0@ }],
        seq![ActionModel::Send { destination: 2, message: MSG_0@ }, ActionModel::Receive { message: MSG_0@ }],
        seq![ActionModel::Receive { message: MSG_0@ }],
    ]
}

/// Three agents: the first two send, the last two receive.
pub fn send_test_2() -> (t: Vec<Vec<Action>>)
    ensures
        test_model(t@) == spec_send_test_2(),
{
    let t = vec![
        vec![send(1, MSG_0)],
        vec![send(2, MSG_0), receive(MSG_0)],
        vec![receive(MSG_0)],
    ];
    assert(test_model(t@) =~~= spec_send_test_2());
    t
}

/// The actions of `send_test_3`.
pub open spec fn spec_send_test_3() -> Seq<Seq<ActionModel>> {
    seq![
        seq![ActionModel::Send { destination: 2, message: "message_0"@ }],
        seq![ActionModel::Send { destination: 2, message: MSG_0@ }],
        seq![ActionModel::Receive { message: "message_0"@ }, ActionModel::Receive { message: MSG_0@ }],
    ]
}

/// Three agents: the first two send to the third.
pub fn send_test_3() -> (t: Vec<Vec<Action>>)
    ensures
        test_model(t@) == spec_send_test_3(),
{
    let t = vec![
        vec![send(2, "message_0")],
        vec![send(2, MSG_0)],
        vec![receive("message_0"), receive(MSG_0)],
    ];
    assert(test_model(t@) =~~= spec_send_test_3());
    t
}

/// The actions of `send_test_4`.
pub open spec fn spec_send_test_4() -> Seq<Seq<ActionModel>> {
    seq![
        seq![ActionModel::Send { destination: 1, message: "message_0"@ }],
        seq![ActionModel::Die],
    ]
}

/// One sender; the receiver dies before receiving.
pub fn send_test_4() -> (t: Vec<Vec<Action>>)
    ensures
        test_model(t@) == spec_send_test_4(),
{
    let t = vec![
        vec![send(1, "message_0")],
        vec![Action::Die()],
    ];
    assert(test_model(t@) =~~= spec_send_test_4());
    t
}

/// The actions of `broadcast_test_1`.
pub open spec fn spec_broadcast_test_1() -> Seq<Seq<ActionModel>> {
    seq![
        seq![ActionModel::Receive { message: MSG_0@ }],
        seq![ActionModel::Broadcast { message: MSG_0@ }, ActionModel::Receive { message: MSG_0@ }],
        seq![ActionModel::Receive { message: MSG_0@ }],
        seq![ActionModel::Receive { message: MSG_0@ }],
        seq![ActionModel::Receive { message: MSG_0@ }],
        seq![ActionModel::Receive { message: MSG_0@ }],
        seq![ActionModel::Receive { message: MSG_0@ }],
        seq![ActionModel::Receive { message: MSG_0@ }],
        seq![ActionModel::Receive { message: MSG_0@ }],
        seq![ActionModel::Receive { message: MSG_0@ }],
    ]
}

/// Ten agents, one broadcasts.
pub fn broadcast_test_1() -> (t: Vec<Vec<Action>>)
    ensures
        test_model(t@) == spec_broadcast_test_1(),
{
    let t = vec![
        vec![receive(MSG_0)],
        vec![broadcast(MSG_0), receive(MSG_0)],
        vec![receive(MSG_0)],
        vec![receive(MSG_0)],
        vec![receive(MSG_0)],
        vec![receive(MSG_0)],
        vec![receive(MSG_0)],
        vec![receive(MSG_0)],
        vec![receive(MSG_0)],
        vec![receive(MSG_0)],
    ];
    assert(test_model(t@) =~~= spec_broadcast_test_1());
    t
}

/// The actions of `broadcast_test_2`.
pub open spec fn spec_broadcast_test_2() -> Seq<Seq<ActionModel>> {
    seq![
        seq![ActionModel::Receive { message: "message_0"@ }],
        seq![ActionModel::Die],
        seq![ActionModel::Broadcast { message: "message_0"@ }, ActionModel::Receive { message: "message_0"@ }],
        seq![ActionModel::Receive { message: "message_0"@ }],
        seq![ActionModel::Receive { message: "message_0"@ }],
        seq![ActionModel::Receive { message: "message_0"@ }],
        seq![ActionModel::Receive { message: "message_0"@ }],
        seq![ActionModel::Receive { message: "message_0"@ }],
        seq![ActionModel::Receive { message: "message_0"@ }],
        seq![ActionModel::Receive { message: "message_0"@ }],
    ]
}

/// Ten agents, one broadcasts and one is never born.
pub fn broadcast_test_2() -> (t: Vec<Vec<Action>>)
    ensures
        test_model(t@) == spec_broadcast_test_2(),
{
    let t = vec![
        vec![receive("message_0")],
        vec![Action::Die()],
        vec![broadcast("message_0"), receive("message_0")],
        vec![receive("message_0")],
        vec![receive("message_0")],
        vec![receive("message_0")],
        vec![receive("message_0")],
        vec![receive("message_0")],
        vec![receive("message_0")],
        vec![receive("message_0")],
    ];
    assert(test_model(t@) =~~= spec_broadcast_test_2());
    t
}

/// The actions of `broadcast_test_3`.
pub open spec fn spec_broadcast_test_3() -> Seq<Seq<ActionModel>> {
    seq![
        seq![ActionModel::Die],
        seq![ActionModel::Receive { message: "message_0"@ }],
        seq![ActionModel::Broadcast { message: "message_0"@ }, ActionModel::Receive { message: "message_0"@ }],
        seq![ActionModel::Receive { message: "message_0"@ }],
        seq![ActionModel::Receive { message: "message_0"@ }],
        seq![ActionModel::Receive { message: "message_0"@ }],
        seq![ActionModel::Receive { message: "message_0"@ }],
        seq![ActionModel::Receive { message: "message_0"@ }],
        seq![ActionModel::Receive { message: "message_0"@ }],
        seq![ActionModel::Receive { message: "message_0"@ }],
    ]
}

/// Ten agents, one broadcasts and the leader is never born.
pub fn broadcast_test_3() -> (t: Vec<Vec<Action>>)
    ensures
        test_model(t@) == spec_broadcast_test_3(),
{
    let t = vec![
        vec![Action::Die()],
        vec![receive("message_0")],
        vec![broadcast("message_0"), receive("message_0")],
        vec![receive("message_0")],
        vec![receive("message_0")],
        vec![receive("message_0")],
        vec![receive("message_0")],
        vec![receive("message_0")],
        vec![receive("message_0")],
        vec![receive("message_0")],
    ];
    assert(test_model(t@) =~~= spec_broadcast_test_3());
    t
}

/// The actions of `broadcast_test_4`.
pub open spec fn spec_broadcast_test_4() -> Seq<Seq<ActionModel>> {
    seq![
        seq![ActionModel::Broadcast { message: "message_0"@ }, ActionModel::DieAfterSend, ActionModel::Receive { message: "message_0"@ }],
        seq![ActionModel::Receive { message: "message_0"@ }],
        seq![ActionModel::Receive { message: "message_0"@ }],
        seq![ActionModel::Receive { message: "message_0"@ }],
        seq![ActionModel::Receive { message: "message_0"@ }],
        seq![ActionModel::Receive { message: "message_0"@ }],
        seq![ActionModel::Receive { message: "message_0"@ }],
        seq![ActionModel::Receive { message: "message_0"@ }],
        seq![ActionModel::Receive { message: "message_0"@ }],
        seq![ActionModel::Receive { message: "message_0"@ }],
    ]
}

/// Ten agents, one broadcasts and dies.
pub fn broadcast_test_4() -> (t: Vec<Vec<Action>>)
    ensures
        test_model(t@) == spec_broadcast_test_4(),
{
    let t = vec![
        vec![broadcast("message_0"), Action::Send(SendAction::DieAfterSend {}), receive("message_0")],
        vec![receive("message_0")],
        vec![receive("message_0")],
        vec![receive("message_0")],
        vec![receive("message_0")],
        vec![receive("message_0")],
        vec![receive("message_0")],
        vec![receive("message_0")],
        vec![receive("message_0")],
        vec![receive("message_0")],
    ];
    assert(test_model(t@) =~~= spec_broadcast_test_4());
    t
}

/// The actions of `broadcast_test_5`.
pub open spec fn spec_broadcast_test_5() -> Seq<Seq<ActionModel>> {
    seq![
        seq![ActionModel::DieAfterReceive { after_n_messages: 0 }],
        seq![ActionModel::Broadcast { message: MSG_0@ }, ActionModel::Broadcast { message: MSG_1@ }, ActionModel::Broadcast { message: MSG_2@ }, ActionModel::Receive { message: MSG_0@ }, ActionModel::Receive { message: MSG_1@ }, ActionModel::Receive { message: MSG_2@ }],
        seq![ActionModel::Receive { message: MSG_0@ }, ActionModel::Receive { message: MSG_1@ }, ActionModel::Receive { message: MSG_2@ }],
        seq![ActionModel::Receive { message: MSG_0@ }, ActionModel::Receive { message: MSG_1@ }, ActionModel::Receive { message: MSG_2@ }],
        seq![ActionModel::Receive { message: MSG_0@ }, ActionModel::Receive { message: MSG_1@ }, ActionModel::Receive { message: MSG_2@ }],
        seq![ActionModel::Receive { message: MSG_0@ }, ActionModel::Receive { message: MSG_1@ }, ActionModel::Receive { message: MSG_2@ }],
        seq![ActionModel::Receive { message: MSG_0@ }, ActionModel::Receive { message: MSG_1@ }, ActionModel::Receive { message: MSG_2@ }],
        seq![ActionModel::Receive { message: MSG_0@ }, ActionModel::Receive { message: MSG_1@ }, ActionModel::Receive { message: MSG_2@ }],
        seq![ActionModel::Receive { message: MSG_0@ }, ActionModel::Receive { message: MSG_1@ }, ActionModel::Receive { message: MSG_2@ }],
        seq![ActionModel::Receive { message: MSG_0@ }, ActionModel::Receive { message: MSG_1@ }, ActionModel::Receive { message: MSG_2@ }],
    ]
}

/// Ten agents, one broadcasts several times; the leader dies at some point.
pub fn broadcast_test_5() -> (t: Vec<Vec<Action>>)
    ensures
        test_model(t@) == spec_broadcast_test_5(),
{
    let t = vec![
        vec![Action::Receive(ReceiveAction::DieAfterReceive { after_n_messages: 0 })],
        vec![broadcast(MSG_0), broadcast(MSG_1), broadcast(MSG_2), receive(MSG_0), receive(MSG_1), receive(MSG_2)],
        vec![receive(MSG_0), receive(MSG_1), receive(MSG_2)],
        vec![receive(MSG_0), receive(MSG_1), receive(MSG_2)],
        vec![receive(MSG_0), receive(MSG_1), receive(MSG_2)],
        vec![receive(MSG_0), receive(MSG_1), receive(MSG_2)],
        vec![receive(MSG_0), receive(MSG_1), receive(MSG_2)],
        vec![receive(MSG_0), receive(MSG_1), receive(MSG_2)],
        vec![receive(MSG_0), receive(MSG_1), receive(MSG_2)],
        vec![receive(MSG_0), receive(MSG_1), receive(MSG_2)],
    ];
    assert(test_model(t@) =~~= spec_broadcast_test_5());
    t
}

/// The actions of `broadcast_test_6`.
pub open spec fn spec_broadcast_test_6() -> Seq<Seq<ActionModel>> {
    seq![
        seq![ActionModel::Receive { message: "0"@ }, ActionModel::Receive { message: "1"@ }, ActionModel::Receive { message: "2"@ }],
        seq![ActionModel::Broadcast { message: "0"@ }, ActionModel::Receive { message: "0"@ }, ActionModel::Receive { message: "1"@ }, ActionModel::Receive { message: "2"@ }],
        seq![ActionModel::Broadcast { message: "1"@ }, ActionModel::Receive { message: "0"@ }, ActionModel::Receive { message: "1"@ }, ActionModel::Receive { message: "2"@ }],
        seq![ActionModel::Broadcast { message: "2"@ }, ActionModel::Receive { message: "0"@ }, ActionModel::Receive { message: "1"@ }, ActionModel::Receive { message: "2"@ }],
        seq![ActionModel::Receive { message: "0"@ }, ActionModel::Receive { message: "1"@ }, ActionModel::Receive { message: "2"@ }],
        seq![ActionModel::Receive { message: "0"@ }, ActionModel::Receive { message: "1"@ }, ActionModel::Receive { message: "2"@ }],
        seq![ActionModel::Receive { message: "0"@ }, ActionModel::Receive { message: "1"@ }, ActionModel::Receive { message: "2"@ }],
        seq![ActionModel::Receive { message: "0"@ }, ActionModel::Receive { message: "1"@ }, ActionModel::Receive { message: "2"@ }],
        seq![ActionModel::Receive { message: "0"@ }, ActionModel::Receive { message: "1"@ }, ActionModel::Receive { message: "2"@ }],
        seq![ActionModel::Receive { message: "0"@ }, ActionModel::Receive { message: "1"@ }, ActionModel::Receive { message: "2"@ }],
    ]
}

/// Ten agents, several broadcast.
pub fn broadcast_test_6() -> (t: Vec<Vec<Action>>)
    ensures
        test_model(t@) == spec_broadcast_test_6(),
{
    let t = vec![
        vec![receive("0"), receive("1"), receive("2")],
        vec![broadcast("0"), receive("0"), receive("1"), receive("2")],
        vec![broadcast("1"), receive("0"), receive("1"), receive("2")],
        vec![broadcast("2"), receive("0"), receive("1"), receive("2")],
        vec![receive("0"), receive("1"), receive("2")],
        vec![receive("0"), receive("1"), receive("2")],
        vec![receive("0"), receive("1"), receive("2")],
        vec![receive("0"), receive("1"), receive("2")],
        vec![receive("0"), receive("1"), receive("2")],
        vec![receive("0"), receive("1"), receive("2")],
    ];
    assert(test_model(t@) =~~= spec_broadcast_test_6());
    t
}

/// Every scenario with its name, in the order they run.
pub fn all_tests() -> (tests: Vec<(&'static str, Vec<Vec<Action>>)>)
    ensures
        tests@.len() == 10,
        tests@[0].0@ == "send_1"@ && test_model(tests@[0].1@) == spec_send_test_1(),
        tests@[1].0@ == "send_2"@ && test_model(tests@[1].1@) == spec_send_test_2(),
        tests@[2].0@ == "send_3"@ && test_model(tests@[2].1@) == spec_send_test_3(),
        tests@[3].0@ == "send_4"@ && test_model(tests@[3].1@) == spec_send_test_4(),
        tests@[4].0@ == "broadcast_1"@ && test_model(tests@[4].1@) == spec_broadcast_test_1(),
        tests@[5].0@ == "broadcast_2"@ && test_model(tests@[5].1@) == spec_broadcast_test_2(),
        tests@[6].0@ == "broadcast_3"@ && test_model(tests@[6].1@) == spec_broadcast_test_3(),
        tests@[7].0@ == "broadcast_4"@ && test_model(tests@[7].1@) == spec_broadcast_test_4(),
        tests@[8].0@ == "broadcast_5"@ && test_model(tests@[8].1@) == spec_broadcast_test_5(),
        tests@[9].0@ == "broadcast_6"@ && test_model(tests@[9].1@) == spec_broadcast_test_6(),
{
    let tests = vec![
        ("send_1", send_test_1()),
        ("send_2", send_test_2()),
        ("send_3", send_test_3()),
        ("send_4", send_test_4()),
        ("broadcast_1", broadcast_test_1()),
        ("broadcast_2", broadcast_test_2()),
        ("broadcast_3", broadcast_test_3()),
        ("broadcast_4", broadcast_test_4()),
        ("broadcast_5", broadcast_test_5()),
        ("broadcast_6", broadcast_test_6()),
    ];
    tests
}

} // verus!
