//! The decisions of the user-facing layer: the broadcast algorithm named in
//! the settings, where a send goes, when a broadcast has come back, and how
//! an atomic broadcast goes through the leader.
use vstd::prelude::*;
use crate::addr::SocketAddr;
use crate::relcomm::node::{Node, NodeState};
use crate::relcomm::rec_aux::Broadcast;

verus! {

/// Whether two byte slices hold the same bytes.
pub fn bytes_eq(a: &[u8], b: &[u8]) -> (res: bool)
    ensures
        res == (a@ == b@),
{
    if a.len() != b.len() {
        return false;
    }
    let mut i: usize = 0;
    while i < a.len()
        invariant
            i <= a@.len(),
            a@.len() == b@.len(),
            forall|j: int| 0 <= j < i ==> a@[j] == b@[j],
        decreases a@.len() - i,
    {
        if a[i] != b[i] {
            return false;
        }
        i = i + 1;
    }
    assert(a@ =~= b@);
    true
}

/// Whether a string is the given name.
fn is_name(s: &str, name: &str) -> (res: bool)
    ensures
        res == (s@ == name@),
{
    let r = bytes_eq(s.as_bytes(), name.as_bytes());
    proof {
        vstd::utf8::encode_utf8_decode_utf8(s@);
        vstd::utf8::encode_utf8_decode_utf8(name@);
    }
    r
}

/// The broadcast algorithm that a setting names: "BEB", "URB" or "AB".
pub fn broadcast_from_name(name: &str) -> (res: Option<Broadcast>)
    ensures
        res == (if name@ == "BEB"@ {
            Some(Broadcast::BEB)
        } else if name@ == "URB"@ {
            Some(Broadcast::URB)
        } else if name@ == "AB"@ {
            Some(Broadcast::AB)
        } else {
            None
        }),
{
    if is_name(name, "BEB") {
        Some(Broadcast::BEB)
    } else if is_name(name, "URB") {
        Some(Broadcast::URB)
    } else if is_name(name, "AB") {
        Some(Broadcast::AB)
    } else {
        None
    }
}

/// The address of member number `id`, if there is one.
pub fn destination(group: &Vec<Node>, id: usize) -> (res: Option<SocketAddr>)
    ensures
        res == (if id < group@.len() { Some(group@[id as int].addr) } else { None }),
{
    if id < group.len() {
        Some(group[id].addr)
    } else {
        None
    }
}

/// How many members are not known dead.
pub open spec fn living_count(g: Seq<Node>) -> nat
    decreases g.len(),
{
    if g.len() == 0 {
        0
    } else {
        living_count(g.drop_last()) + if g.last().state != NodeState::Dead { 1nat } else { 0nat }
    }
}

/// The members not known dead, in the order of the group.
pub open spec fn living_members(g: Seq<Node>) -> Seq<Node> {
    g.filter(|n: Node| n.state != NodeState::Dead)
}

/// The members not known dead, in the order of the group.
pub fn get_livings(group: &Vec<Node>) -> (res: Vec<Node>)
    ensures
        res@ == living_members(group@),
        res@.len() == living_count(group@),
        forall|i: int| 0 <= i < res@.len() ==> (#[trigger] res@[i]).state != NodeState::Dead,
{
    let mut res: Vec<Node> = Vec::new();
    let mut i: usize = 0;
    proof {
        assert(group@.subrange(0, 0).filter(|n: Node| n.state != NodeState::Dead) =~= Seq::<Node>::empty());
    }
    while i < group.len()
        invariant
            i <= group@.len(),
            res@ == living_members(group@.subrange(0, i as int)),
            res@.len() == living_count(group@.subrange(0, i as int)),
            forall|j: int| 0 <= j < res@.len() ==> (#[trigger] res@[j]).state != NodeState::Dead,
        decreases group@.len() - i,
    {
        proof {
            assert(group@.subrange(0, i + 1).drop_last() =~= group@.subrange(0, i as int));
            reveal_with_fuel(Seq::filter, 1);
        }
        if !group[i].is_dead() {
            res.push(group[i]);
        }
        i = i + 1;
    }
    proof {
        assert(group@.subrange(0, group@.len() as int) =~= group@);
    }
    res
}

/// While waiting for a broadcast to come back: when the broadcast `received`
/// is the one sent, the broadcast is over and reaches the members not known
/// dead (their count is returned); otherwise the wait goes on.
pub fn broadcast_returned(received: &Vec<u8>, message: &Vec<u8>, group: &Vec<Node>) -> (res: Option<u32>)
    ensures
        res == (if received@ == message@ { Some(living_count(group@) as u32) } else { None }),
{
    if bytes_eq(received.as_slice(), message.as_slice()) {
        let livings = get_livings(group);
        Some(livings.len() as u32)
    } else {
        None
    }
}

/// One attempt of an atomic broadcast.
#[derive(Clone, Copy, Debug, PartialEq, Eq, Structural)]
pub enum AbStep {
    /// The host is the leader: it starts the broadcast itself.
    StartBroadcast,
    /// A new leader: ask it to broadcast.
    AskLeader,
    /// The same leader as before: never ask it twice, only wait again.
    Wait,
}

/// The next attempt of an atomic broadcast, from the current leader, the host
/// and the leader asked last.
pub open spec fn ab_choice(leader: usize, host: usize, prev_leader: usize) -> AbStep {
    if leader == host {
        AbStep::StartBroadcast
    } else if leader != prev_leader {
        AbStep::AskLeader
    } else {
        AbStep::Wait
    }
}

/// Chooses the next attempt of an atomic broadcast.
pub fn ab_step(leader: usize, host: usize, prev_leader: usize) -> (step: AbStep)
    ensures
        step == ab_choice(leader, host, prev_leader),
{
    if leader == host {
        AbStep::StartBroadcast
    } else if leader != prev_leader {
        AbStep::AskLeader
    } else {
        AbStep::Wait
    }
}

/// Law: a leader is never asked twice in a row to broadcast the same message;
/// the host that is itself the leader always broadcasts.
pub proof fn lemma_leader_asked_once(leader: usize, host: usize, prev_leader: usize)
    ensures
        ab_choice(leader, host, leader) != AbStep::AskLeader,
        ab_choice(host, host, prev_leader) == AbStep::StartBroadcast,
{
}

} // verus!
