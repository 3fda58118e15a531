//! The texts that describe what an agent is doing.
use vstd::prelude::*;
use crate::text::{decimal, push_decimal};

verus! {

/// What an agent is doing.
#[derive(Clone, Copy, Debug, PartialEq, Eq, Structural)]
pub enum AgentState {
    Initializing,
    InitFailed,
    WaitingForPacket,
    Fragmenting,
    Sending,
    Receiving,
    Completed,
    FailedToReceive,
    FailedToSend,
    Down,
}

/// The name of a state, as `Debug` writes it.
pub open spec fn state_name(s: AgentState) -> Seq<char> {
    match s {
        AgentState::Initializing => "Initializing"@,
        AgentState::InitFailed => "InitFailed"@,
        AgentState::WaitingForPacket => "WaitingForPacket"@,
        AgentState::Fragmenting => "Fragmenting"@,
        AgentState::Sending => "Sending"@,
        AgentState::Receiving => "Receiving"@,
        AgentState::Completed => "Completed"@,
        AgentState::FailedToReceive => "FailedToReceive"@,
        AgentState::FailedToSend => "FailedToSend"@,
        AgentState::Down => "Down"@,
    }
}

fn state_str(s: AgentState) -> (res: &'static str)
    ensures
        res@ == state_name(s),
{
    match s {
        AgentState::Initializing => "Initializing",
        AgentState::InitFailed => "InitFailed",
        AgentState::WaitingForPacket => "WaitingForPacket",
        AgentState::Fragmenting => "Fragmenting",
        AgentState::Sending => "Sending",
        AgentState::Receiving => "Receiving",
        AgentState::Completed => "Completed",
        AgentState::FailedToReceive => "FailedToReceive",
        AgentState::FailedToSend => "FailedToSend",
        AgentState::Down => "Down",
    }
}

/// An event to describe.
#[derive(Clone, Copy, Debug, PartialEq, Eq, Structural)]
pub enum LoggerState {
    PacketSender {
        state: AgentState,
        current_agent_id: u16,
        target_agent_id: u16,
        seq_num: u32,
        action: AgentState,
    },
    AgentState { state: AgentState, agent_id: u16 },
    MessageReceiver {
        state: AgentState,
        current_agent_id: u16,
        target_agent_id: u16,
        message_id: u32,
        action: AgentState,
    },
    MessageSender {
        state: AgentState,
        current_agent_id: u16,
        target_agent_id: u16,
        message_id: u32,
        action: AgentState,
    },
}

/// The text that describes an event.
pub open spec fn log_text(l: LoggerState) -> Seq<char> {
    match l {
        LoggerState::PacketSender { state, current_agent_id, target_agent_id, seq_num, action } =>
            "Agent "@ + decimal(current_agent_id as nat) + " , state: "@ + state_name(state)
                + ", sending packet "@ + decimal(seq_num as nat) + " to Agent "@ + decimal(
                target_agent_id as nat,
            ) + ". Next action : "@ + state_name(action),
        LoggerState::AgentState { state, agent_id } => "Agent "@ + decimal(agent_id as nat)
            + " , state: "@ + state_name(state),
        LoggerState::MessageReceiver { state, current_agent_id, target_agent_id, message_id, action } =>
            "Agent "@ + decimal(current_agent_id as nat) + " , state: "@ + state_name(state)
                + ", receiving message "@ + decimal(message_id as nat) + " from Agent "@ + decimal(
                target_agent_id as nat,
            ) + ". Next action : "@ + state_name(action),
        LoggerState::MessageSender { state, current_agent_id, target_agent_id, message_id, action } =>
            "Agent "@ + decimal(current_agent_id as nat) + " , state: "@ + state_name(state)
                + ", sending message "@ + decimal(message_id as nat) + " to Agent "@ + decimal(
                target_agent_id as nat,
            ) + ". Next action : "@ + state_name(action),
    }
}

/// Describes the events of an agent.
#[derive(Debug)]
pub struct DebugLog {}

impl DebugLog {
    pub fn new(log_type: LoggerState) -> (res: DebugLog) {
        DebugLog {}
    }

    /// The text that describes an event.
    pub fn get_log(&self, log_type: LoggerState) -> (res: String)
        ensures
            res@ == log_text(log_type),
    {
        let mut s = String::new();
        match log_type {
            LoggerState::PacketSender { state, current_agent_id, target_agent_id, seq_num, action } => {
                s.append("Agent ");
                push_decimal(&mut s, current_agent_id as u64);
                s.append(" , state: ");
                s.append(state_str(state));
                s.append(", sending packet ");
                push_decimal(&mut s, seq_num as u64);
                s.append(" to Agent ");
                push_decimal(&mut s, target_agent_id as u64);
                s.append(". Next action : ");
                s.append(state_str(action));
            },
            LoggerState::AgentState { state, agent_id } => {
                s.append("Agent ");
                push_decimal(&mut s, agent_id as u64);
                s.append(" , state: ");
                s.append(state_str(state));
            },
            LoggerState::MessageReceiver { state, current_agent_id, target_agent_id, message_id, action } => {
                s.append("Agent ");
                push_decimal(&mut s, current_agent_id as u64);
                s.append(" , state: ");
                s.append(state_str(state));
                s.append(", receiving message ");
                push_decimal(&mut s, message_id as u64);
                s.append(" from Agent ");
                push_decimal(&mut s, target_agent_id as u64);
                s.append(". Next action : ");
                s.append(state_str(action));
            },
            LoggerState::MessageSender { state, current_agent_id, target_agent_id, message_id, action } => {
                s.append("Agent ");
                push_decimal(&mut s, current_agent_id as u64);
                s.append(" , state: ");
                s.append(state_str(state));
                s.append(", sending message ");
                push_decimal(&mut s, message_id as u64);
                s.append(" to Agent ");
                push_decimal(&mut s, target_agent_id as u64);
                s.append(". Next action : ");
                s.append(state_str(action));
            },
        }
        proof {
            assert(s@ =~= log_text(log_type));
        }
        s
    }
}

} // verus!
