//! The group that the scenarios run: every member on this machine.
use vstd::prelude::*;
use crate::addr::{IpAddr, SocketAddr};
use crate::relcomm::node::{Node, NodeState};

verus! {

/// 127.0.0.1 as its 32-bit number.
pub const LOCALHOST: u32 = 0x7f00_0001;

/// The port of the first member; member `i` listens on the port after `i` others.
pub const FIRST_PORT: u16 = 3000;

/// Member `i` of a group on this machine.
pub open spec fn local_member(i: int) -> Node {
    Node {
        addr: SocketAddr { ip: IpAddr::V4(LOCALHOST), port: (FIRST_PORT + i) as u16 },
        agent_number: i as usize,
        state: NodeState::Unborn,
    }
}

/// The members of a group of `agent_num` agents on this machine: member `i`
/// listens on 127.0.0.1, port 3000 + `i`, and has not been heard from yet.
pub fn local_group(agent_num: usize) -> (nodes: Vec<Node>)
    requires
        FIRST_PORT + agent_num <= u16::MAX + 1,
    ensures
        nodes@.len() == agent_num,
        forall|i: int| 0 <= i < agent_num ==> #[trigger] nodes@[i] == local_member(i),
{
    let mut nodes: Vec<Node> = Vec::new();
    let mut i: usize = 0;
    while i < agent_num
        invariant
            i <= agent_num,
            FIRST_PORT + agent_num <= u16::MAX + 1,
            nodes@.len() == i,
            forall|j: int| 0 <= j < i ==> #[trigger] nodes@[j] == local_member(j),
        decreases agent_num - i,
    {
        let addr = SocketAddr::new(IpAddr::V4(LOCALHOST), FIRST_PORT + i as u16);
        nodes.push(Node::new(addr, i));
        i = i + 1;
    }
    nodes
}

} // verus!
