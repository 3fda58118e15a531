//! The scenarios of the single-object variant: each agent's list of actions.
use vstd::prelude::*;
use crate::harness::messages::{MSG_0, MSG_1, MSG_2};

verus! {

/// One step of an agent's part in a scenario.
#[derive(PartialEq, Clone, Debug)]
pub enum Action {
    Send { destination: usize, message: String },
    Receive { message: String },
    Broadcast { message: String },
    Die { after_n_messages: u32 },
}

/// An action with its text as a character sequence.
pub enum PlanModel {
    Send { destination: usize, message: Seq<char> },
    Receive { message: Seq<char> },
    Broadcast { message: Seq<char> },
    Die { after_n_messages: u32 },
}

impl Action {
    pub open spec fn model(&self) -> PlanModel {
        match self {
            Action::Send { destination, message } => PlanModel::Send { destination: *destination, message: message@ },
            Action::Receive { message } => PlanModel::Receive { message: message@ },
            Action::Broadcast { message } => PlanModel::Broadcast { message: message@ },
            Action::Die { after_n_messages } => PlanModel::Die { after_n_messages: *after_n_messages },
        }
    }
}

/// A scenario as models: one sequence of actions per agent.
pub open spec fn plan_model(t: Seq<Vec<Action>>) -> Seq<Seq<PlanModel>> {
    t.map_values(|a: Vec<Action>| a@.map_values(|x: Action| x.model()))
}

/// The actions of `send_test_1`.
pub open spec fn spec_send_test_1() -> Seq<Seq<PlanModel>> {
    seq![
        seq![PlanModel::Send { destination: 1, message: "message_0"@ }],
        seq![PlanModel::Receive { message: "message_0"@ }],
    ]
}

/// A sends a short message to B.
pub fn send_test_1() -> (t: Vec<Vec<Action>>)
    ensures
        plan_model(t@) == spec_send_test_1(),
{
    let t = vec![
        vec![
            Action::Send { destination: 1, message: "message_0".to_owned() },
        ],
        vec![
            Action::Receive { message: "message_0".to_owned() },
        ],
    ];
    assert(plan_model(t@) =~~= spec_send_test_1());
    t
}

/// The actions of `send_test_2`.
pub open spec fn spec_send_test_2() -> Seq<Seq<PlanModel>> {
    seq![
        seq![PlanModel::Send { destination: 1, message: "message_0"@ }],
        seq![PlanModel::Send { destination: 2, message: MSG_0@ }, PlanModel::Receive { message: "message_0"@ }],
        seq![PlanModel::Receive { message: MSG_0@ }],
    ]
}

/// A sends to B, B sends a long message to C.
pub fn send_test_2() -> (t: Vec<Vec<Action>>)
    ensures
        plan_model(t@) == spec_send_test_2(),
{
    let t = vec![
        vec![
            Action::Send { destination: 1, message: "message_0".to_owned() },
        ],
        vec![
            Action::Send { destination: 2, message: MSG_0.to_owned() },
            Action::Receive { message: "message_0".to_owned() },
        ],
        vec![
            Action::Receive { message: MSG_0.to_owned() },
        ],
    ];
    assert(plan_model(t@) =~~= spec_send_test_2());
    t
}

/// The actions of `broadcast_test_1`.
pub open spec fn spec_broadcast_test_1() -> Seq<Seq<PlanModel>> {
    seq![
        seq![PlanModel::Broadcast { message: "message_0"@ }, PlanModel::Receive { message: "message_0"@ }],
        seq![PlanModel::Receive { message: "message_0"@ }],
        seq![PlanModel::Receive { message: "message_0"@ }],
    ]
}

/// Three agents, the first broadcasts a short message.
pub fn broadcast_test_1() -> (t: Vec<Vec<Action>>)
    ensures
        plan_model(t@) == spec_broadcast_test_1(),
{
    let t = vec![
        vec![
            Action::Broadcast { message: "message_0".to_owned() },
            Action::Receive { message: "message_0".to_owned() },
        ],
        vec![
            Action::Receive { message: "message_0".to_owned() },
        ],
        vec![
            Action::Receive { message: "message_0".to_owned() },
        ],
    ];
    assert(plan_model(t@) =~~= spec_broadcast_test_1());
    t
}

/// The actions of `broadcast_test_2`.
pub open spec fn spec_broadcast_test_2() -> Seq<Seq<PlanModel>> {
    seq![
        seq![PlanModel::Broadcast { message: MSG_0@ }, PlanModel::Receive { message: MSG_0@ }],
        seq![PlanModel::Receive { message: MSG_0@ }],
        seq![PlanModel::Receive { message: MSG_0@ }],
    ]
}

/// Three agents, the first broadcasts a long message.
pub fn broadcast_test_2() -> (t: Vec<Vec<Action>>)
    ensures
        plan_model(t@) == spec_broadcast_test_2(),
{
    let t = vec![
        vec![
            Action::Broadcast { message: MSG_0.to_owned() },
            Action::Receive { message: MSG_0.to_owned() },
        ],
        vec![
            Action::Receive { message: MSG_0.to_owned() },
        ],
        vec![
            Action::Receive { message: MSG_0.to_owned() },
        ],
    ];
    assert(plan_model(t@) =~~= spec_broadcast_test_2());
    t
}

/// The actions of `broadcast_test_3`.
pub open spec fn spec_broadcast_test_3() -> Seq<Seq<PlanModel>> {
    seq![
        seq![PlanModel::Receive { message: "Mensagem 0"@ }, PlanModel::Die { after_n_messages: 1 }, PlanModel::Receive { message: "Mensagem 1"@ }, PlanModel::Receive { message: "Mensagem 2"@ }],
        seq![PlanModel::Receive { message: "Mensagem 0"@ }, PlanModel::Receive { message: "Mensagem 1"@ }, PlanModel::Receive { message: "Mensagem 2"@ }],
        seq![PlanModel::Broadcast { message: "Mensagem 0"@ }, PlanModel::Broadcast { message: "Mensagem 1"@ }, PlanModel::Receive { message: "Mensagem 0"@ }, PlanModel::Receive { message: "Mensagem 1"@ }, PlanModel::Receive { message: "Mensagem 2"@ }],
        seq![PlanModel::Receive { message: "Mensagem 0"@ }, PlanModel::Receive { message: "Mensagem 1"@ }, PlanModel::Broadcast { message: "Mensagem 2"@ }, PlanModel::Receive { message: "Mensagem 2"@ }],
    ]
}

/// Four agents, two broadcast; the first dies after one message.
pub fn broadcast_test_3() -> (t: Vec<Vec<Action>>)
    ensures
        plan_model(t@) == spec_broadcast_test_3(),
{
    let t = vec![
        vec![
            Action::Receive { message: "Mensagem 0".to_owned() },
            Action::Die { after_n_messages: 1 },
            Action::Receive { message: "Mensagem 1".to_owned() },
            Action::Receive { message: "Mensagem 2".to_owned() },
        ],
        vec![
            Action::Receive { message: "Mensagem 0".to_owned() },
            Action::Receive { message: "Mensagem 1".to_owned() },
            Action::Receive { message: "Mensagem 2".to_owned() },
        ],
        vec![
            Action::Broadcast { message: "Mensagem 0".to_owned() },
            Action::Broadcast { message: "Mensagem 1".to_owned() },
            Action::Receive { message: "Mensagem 0".to_owned() },
            Action::Receive { message: "Mensagem 1".to_owned() },
            Action::Receive { message: "Mensagem 2".to_owned() },
        ],
        vec![
            Action::Receive { message: "Mensagem 0".to_owned() },
            Action::Receive { message: "Mensagem 1".to_owned() },
            Action::Broadcast { message: "Mensagem 2".to_owned() },
            Action::Receive { message: "Mensagem 2".to_owned() },
        ],
    ];
    assert(plan_model(t@) =~~= spec_broadcast_test_3());
    t
}

/// The actions of `broadcast_test_4`.
pub open spec fn spec_broadcast_test_4() -> Seq<Seq<PlanModel>> {
    seq![
        seq![PlanModel::Receive { message: MSG_0@ }, PlanModel::Die { after_n_messages: 1 }, PlanModel::Receive { message: MSG_1@ }, PlanModel::Receive { message: MSG_2@ }],
        seq![PlanModel::Receive { message: MSG_0@ }, PlanModel::Receive { message: MSG_1@ }, PlanModel::Receive { message: MSG_2@ }],
        seq![PlanModel::Broadcast { message: MSG_0@ }, PlanModel::Broadcast { message: MSG_1@ }, PlanModel::Receive { message: MSG_0@ }, PlanModel::Receive { message: MSG_1@ }, PlanModel::Receive { message: MSG_2@ }],
        seq![PlanModel::Receive { message: MSG_0@ }, PlanModel::Receive { message: MSG_1@ }, PlanModel::Broadcast { message: MSG_2@ }, PlanModel::Receive { message: MSG_2@ }],
    ]
}

/// Four agents, two broadcast long messages; the first dies after one message.
pub fn broadcast_test_4() -> (t: Vec<Vec<Action>>)
    ensures
        plan_model(t@) == spec_broadcast_test_4(),
{
    let t = vec![
        vec![
            Action::Receive { message: MSG_0.to_owned() },
            Action::Die { after_n_messages: 1 },
            Action::Receive { message: MSG_1.to_owned() },
            Action::Receive { message: MSG_2.to_owned() },
        ],
        vec![
            Action::Receive { message: MSG_0.to_owned() },
            Action::Receive { message: MSG_1.to_owned() },
            Action::Receive { message: MSG_2.to_owned() },
        ],
        vec![
            Action::Broadcast { message: MSG_0.to_owned() },
            Action::Broadcast { message: MSG_1.to_owned() },
            Action::Receive { message: MSG_0.to_owned() },
            Action::Receive { message: MSG_1.to_owned() },
            Action::Receive { message: MSG_2.to_owned() },
        ],
        vec![
            Action::Receive { message: MSG_0.to_owned() },
            Action::Receive { message: MSG_1.to_owned() },
            Action::Broadcast { message: MSG_2.to_owned() },
            Action::Receive { message: MSG_2.to_owned() },
        ],
    ];
    assert(plan_model(t@) =~~= spec_broadcast_test_4());
    t
}

} // verus!
