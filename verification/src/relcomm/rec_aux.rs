//! What the listener, the sender and the user-facing layer share.
use vstd::prelude::*;
use crate::addr::SocketAddr;
use crate::relcomm::node::{Node, NodeState};

verus! {

/// The broadcast algorithm in use.
#[derive(Clone, Copy, Debug, PartialEq, Eq, Structural)]
pub enum Broadcast {
    /// Best effort: every member is sent the message once.
    BEB,
    /// Uniform reliable: members gossip what they receive.
    URB,
    /// Atomic: the leader orders every broadcast.
    AB,
}

/// What a request to the sender asks for.
#[derive(Clone, Copy, Debug, PartialEq, Eq, Structural)]
pub enum SendRequestData {
    /// One message to one destination.
    Send { destination_address: SocketAddr },
    /// As many messages as the broadcast algorithm needs.
    StartBroadcast {},
    /// One message to the leader, asking it to broadcast.
    RequestLeader {},
    /// Messages to the gossip friends, keeping the message's origin and sequence number.
    Gossip { origin: SocketAddr, seq_num: u32 },
}

/// The index of the first member believed alive.
pub open spec fn first_alive(group: Seq<Node>) -> Option<int>
    decreases group.len(),
{
    if group.len() == 0 {
        None
    } else if group[0].state == NodeState::Alive {
        Some(0)
    } else {
        match first_alive(group.drop_first()) {
            Some(i) => Some(i + 1),
            None => None,
        }
    }
}

/// The leader: the first member alive, or the host when none is.
pub open spec fn leader_of(group: Seq<Node>, host: Node) -> Node {
    match first_alive(group) {
        Some(i) => group[i],
        None => host,
    }
}

pub proof fn lemma_first_alive(group: Seq<Node>)
    ensures
        first_alive(group) matches Some(i) ==> 0 <= i < group.len() && group[i].state
            == NodeState::Alive && forall|j: int| 0 <= j < i ==> group[j].state != NodeState::Alive,
        first_alive(group) is None ==> forall|j: int|
            0 <= j < group.len() ==> group[j].state != NodeState::Alive,
    decreases group.len(),
{
    if group.len() > 0 {
        lemma_first_alive(group.drop_first());
        if group[0].state != NodeState::Alive {
            assert forall|j: int| 0 < j < group.len() implies group[j] == group.drop_first()[j - 1] by {}
        }
    }
}

/// Helpers that the listener, the sender and the user-facing layer share.
pub trait RecAux {
    /// The member with the highest priority: the first one alive in the group,
    /// or the host itself when no member is alive.
    fn get_leader(group: &Vec<Node>, host: &Node) -> (leader: Node)
        ensures
            leader == leader_of(group@, *host),
    {
        let mut i: usize = 0;
        assert(group@.subrange(0, group@.len() as int) =~= group@);
        while i < group.len()
            invariant
                i <= group@.len(),
                first_alive(group@.subrange(i as int, group@.len() as int)) matches Some(k) ==> first_alive(group@) == Some(i + k),
                first_alive(group@.subrange(i as int, group@.len() as int)) is None ==> first_alive(group@) is None,
            decreases group@.len() - i,
        {
            let ghost rest = group@.subrange(i as int, group@.len() as int);
            if group[i].state == NodeState::Alive {
                assert(first_alive(rest) == Some(0int));
                return group[i];
            }
            assert(rest.drop_first() =~= group@.subrange(i + 1, group@.len() as int));
            i = i + 1;
        }
        assert(group@.subrange(i as int, group@.len() as int) =~= Seq::<Node>::empty());
        *host
    }

    /// The member number that a log line gives the other end of a packet:
    /// the receiver's port when the host sent it, else the sender's, modulo 100.
    fn log_peer(host: &Node, src_addr: SocketAddr, dst_addr: SocketAddr) -> (id: usize)
        ensures
            id == (if host.addr == src_addr { dst_addr.port % 100 } else { src_addr.port % 100 }),
    {
        if host.addr == src_addr {
            (dst_addr.port % 100) as usize
        } else {
            (src_addr.port % 100) as usize
        }
    }
}

} // verus!
