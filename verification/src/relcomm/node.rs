//! The members of a group and what is known of their liveness.
use vstd::prelude::*;
use crate::addr::SocketAddr;
use crate::text::{decimal, push_decimal};

verus! {

/// What the failure detector believes of a member.
#[derive(Clone, Copy, Debug, PartialEq, Eq, Structural)]
pub enum NodeState {
    Unborn,
    Alive,
    Dead,
    Suspect,
}

/// A member of the group.
#[derive(Clone, Copy, Debug, PartialEq, Eq, Structural)]
pub struct Node {
    pub addr: SocketAddr,
    pub agent_number: usize,
    pub state: NodeState,
}

/// The name of a state.
pub open spec fn state_text(s: NodeState) -> Seq<char> {
    match s {
        NodeState::Suspect => "Suspect"@,
        NodeState::Unborn => "Unborn"@,
        NodeState::Alive => "Alive"@,
        NodeState::Dead => "Dead"@,
    }
}

/// The text of a member: its number and its state.
pub open spec fn node_text(n: Node) -> Seq<char> {
    "Agent "@ + decimal(n.agent_number as nat) + " -> "@ + state_text(n.state) + " <-"@
}

impl NodeState {
    fn name(&self) -> (s: &'static str)
        ensures
            s@ == state_text(*self),
    {
        match self {
            NodeState::Suspect => "Suspect",
            NodeState::Unborn => "Unborn",
            NodeState::Alive => "Alive",
            NodeState::Dead => "Dead",
        }
    }

    /// The name of the state.
    pub fn to_string(&self) -> (s: String)
        ensures
            s@ == state_text(*self),
    {
        String::from_str(self.name())
    }
}

impl Node {
    /// The text of the member: "Agent <number> -> <state> <-".
    pub fn to_string(&self) -> (s: String)
        ensures
            s@ == node_text(*self),
    {
        let mut s = String::new();
        s.append("Agent ");
        push_decimal(&mut s, self.agent_number as u64);
        s.append(" -> ");
        s.append(self.state.name());
        s.append(" <-");
        proof {
            assert(s@ =~= node_text(*self));
        }
        s
    }

    /// A member that has not been heard from yet.
    pub fn new(addr: SocketAddr, agent_number: usize) -> (res: Node)
        ensures
            res == (Node { addr, agent_number, state: NodeState::Unborn }),
    {
        Node { addr, agent_number, state: NodeState::Unborn }
    }

    pub fn is_dead(&self) -> (res: bool)
        ensures
            res == (self.state == NodeState::Dead),
    {
        self.state == NodeState::Dead
    }

    pub fn non_initiated(&self) -> (res: bool)
        ensures
            res == (self.state == NodeState::Unborn),
    {
        self.state == NodeState::Unborn
    }

    pub fn is_alive(&self) -> (res: bool)
        ensures
            res == (self.state == NodeState::Alive),
    {
        self.state == NodeState::Alive
    }

    pub fn set_as_dead(&mut self)
        ensures
            *final(self) == (Node { state: NodeState::Dead, ..*old(self) }),
    {
        self.state = NodeState::Dead;
    }
}

} // verus!
