//! Failure detection: heartbeats to every member, and the members that stop
//! answering become suspect, then dead.
use vstd::prelude::*;
use crate::relcomm::config::HEARTBEAT_MISS_LIMIT;
use crate::relcomm::node::{Node, NodeState};
use crate::relcomm::packet::{fresh_header, Packet};
use crate::relcomm::flags::HB;

verus! {

/// Per member, how many rounds in a row passed without its heartbeat
/// (-1 before the first one).
pub struct FailureDetection {
    pub hb_miss_cnt: Vec<i32>,
}

/// The state a member is given after a round without its heartbeat, the
/// count of misses being `cnt`.
pub open spec fn missed_state(cnt: int) -> NodeState {
    if cnt >= HEARTBEAT_MISS_LIMIT {
        NodeState::Dead
    } else {
        NodeState::Suspect
    }
}

/// A heartbeat from member `i` is among those received.
pub open spec fn heard(received: Seq<u32>, i: int) -> bool {
    exists|k: int| 0 <= k < received.len() && received[k] as int == i
}

impl FailureDetection {
    /// Nothing heard yet from any of the `agent_num` members.
    pub fn new(agent_num: usize) -> (res: FailureDetection)
        ensures
            res.hb_miss_cnt@ == Seq::new(agent_num as nat, |i: int| -1i32),
    {
        let mut hb_miss_cnt: Vec<i32> = Vec::new();
        let mut i: usize = 0;
        while i < agent_num
            invariant
                i <= agent_num,
                hb_miss_cnt@ == Seq::new(i as nat, |j: int| -1i32),
            decreases agent_num - i,
        {
            hb_miss_cnt.push(-1);
            i = i + 1;
            proof {
                assert(hb_miss_cnt@ =~= Seq::new(i as nat, |j: int| -1i32));
            }
        }
        FailureDetection { hb_miss_cnt }
    }

    /// The heartbeats the host sends each round, one per member, and the
    /// number of members. The sequence number of a heartbeat is the sender's
    /// member number.
    pub fn get_hbs(group: &Vec<Node>, host: &Node) -> (res: (Vec<Packet>, usize))
        requires
            group@.len() > 0,
        ensures
            res.1 == group@.len(),
            res.0@.len() == group@.len(),
            forall|i: int|
                0 <= i < group@.len() ==> (#[trigger] res.0@[i]).header == fresh_header(
                    host.addr,
                    group@[i].addr,
                    host.addr,
                    host.agent_number as u32,
                    HB,
                    Seq::empty(),
                ) && res.0@[i].data@ == Seq::<u8>::empty(),
    {
        let len = group.len();
        let mut heart_beats: Vec<Packet> = Vec::new();
        let mut i: usize = 0;
        while i < len
            invariant
                i <= len,
                len == group@.len(),
                heart_beats@.len() == i,
                forall|j: int|
                    0 <= j < i ==> (#[trigger] heart_beats@[j]).header == fresh_header(
                        host.addr,
                        group@[j].addr,
                        host.addr,
                        host.agent_number as u32,
                        HB,
                        Seq::empty(),
                    ) && heart_beats@[j].data@ == Seq::<u8>::empty(),
            decreases len - i,
        {
            heart_beats.push(Packet::heart_beat(host, group[i].addr));
            i = i + 1;
        }
        (heart_beats, len)
    }

    /// Takes in the heartbeats received during a round (their senders' member
    /// numbers): a member heard from has its count of misses reset. Returns,
    /// per member, 1 when it was not heard from and 0 when it was.
    pub fn process_heartbeats(&mut self, agent_num: usize, received: &Vec<u32>) -> (hb_miss: Vec<i32>)
        requires
            forall|k: int| 0 <= k < received@.len() ==> (#[trigger] received@[k]) < agent_num
                && received@[k] < old(self).hb_miss_cnt@.len(),
        ensures
            hb_miss@.len() == agent_num,
            final(self).hb_miss_cnt@.len() == old(self).hb_miss_cnt@.len(),
            forall|i: int|
                0 <= i < agent_num ==> #[trigger] hb_miss@[i] == if heard(received@, i) {
                    0i32
                } else {
                    1i32
                },
            forall|i: int|
                0 <= i < old(self).hb_miss_cnt@.len() ==> #[trigger] final(self).hb_miss_cnt@[i]
                    == if heard(received@, i) {
                    0i32
                } else {
                    old(self).hb_miss_cnt@[i]
                },
    {
        let mut hb_miss: Vec<i32> = Vec::new();
        let mut i: usize = 0;
        while i < agent_num
            invariant
                i <= agent_num,
                hb_miss@ == Seq::new(i as nat, |j: int| 1i32),
            decreases agent_num - i,
        {
            hb_miss.push(1);
            i = i + 1;
            proof {
                assert(hb_miss@ =~= Seq::new(i as nat, |j: int| 1i32));
            }
        }
        let mut k: usize = 0;
        while k < received.len()
            invariant
                k <= received@.len(),
                forall|m: int| 0 <= m < received@.len() ==> (#[trigger] received@[m]) < agent_num
                    && received@[m] < old(self).hb_miss_cnt@.len(),
                hb_miss@.len() == agent_num,
                self.hb_miss_cnt@.len() == old(self).hb_miss_cnt@.len(),
                forall|i: int|
                    0 <= i < agent_num ==> #[trigger] hb_miss@[i] == if heard(received@.subrange(0, k as int), i) {
                        0i32
                    } else {
                        1i32
                    },
                forall|i: int|
                    0 <= i < old(self).hb_miss_cnt@.len() ==> #[trigger] self.hb_miss_cnt@[i]
                        == if heard(received@.subrange(0, k as int), i) {
                        0i32
                    } else {
                        old(self).hb_miss_cnt@[i]
                    },
            decreases received@.len() - k,
        {
            let id = received[k] as usize;
            self.hb_miss_cnt.set(id, 0);
            hb_miss.set(id, 0);
            proof {
                let pre = received@.subrange(0, k as int);
                let cur = received@.subrange(0, k + 1);
                assert forall|i: int| #[trigger] heard(cur, i) == (heard(pre, i) || i == id) by {
                    if heard(cur, i) {
                        let w = choose|w: int| 0 <= w < cur.len() && cur[w] as int == i;
                        if w < k {
                            assert(pre[w] == cur[w]);
                        }
                    }
                    if heard(pre, i) {
                        let w = choose|w: int| 0 <= w < pre.len() && pre[w] as int == i;
                        assert(cur[w] == pre[w]);
                    }
                    if i == id {
                        assert(cur[k as int] as int == i);
                    }
                }
            }
            k = k + 1;
        }
        proof {
            assert(received@.subrange(0, received@.len() as int) =~= received@);
        }
        hb_miss
    }

    /// Ends a round: every member not heard from has its count of misses
    /// raised and becomes dead once the count reaches the limit, suspect before.
    pub fn apply_misses(&mut self, group: &mut Vec<Node>, hb_miss: &Vec<i32>, agent_num: usize)
        requires
            agent_num <= hb_miss@.len(),
            agent_num <= old(self).hb_miss_cnt@.len(),
            agent_num <= old(group)@.len(),
            forall|i: int| 0 <= i < agent_num && hb_miss@[i] == 1 ==> #[trigger] old(self).hb_miss_cnt@[i] < i32::MAX,
        ensures
            final(self).hb_miss_cnt@.len() == old(self).hb_miss_cnt@.len(),
            final(group)@.len() == old(group)@.len(),
            forall|i: int|
                0 <= i < old(group)@.len() ==> #[trigger] final(group)@[i] == if i < agent_num
                    && hb_miss@[i] == 1 {
                    Node { state: missed_state(old(self).hb_miss_cnt@[i] + 1), ..old(group)@[i] }
                } else {
                    old(group)@[i]
                },
            forall|i: int|
                0 <= i < old(self).hb_miss_cnt@.len() ==> #[trigger] final(self).hb_miss_cnt@[i]
                    == if i < agent_num && hb_miss@[i] == 1 {
                    (old(self).hb_miss_cnt@[i] + 1) as i32
                } else {
                    old(self).hb_miss_cnt@[i]
                },
    {
        let mut i: usize = 0;
        while i < agent_num
            invariant
                i <= agent_num,
                agent_num <= hb_miss@.len(),
                agent_num <= old(self).hb_miss_cnt@.len(),
                agent_num <= old(group)@.len(),
                forall|j: int| 0 <= j < agent_num && hb_miss@[j] == 1 ==> #[trigger] old(self).hb_miss_cnt@[j] < i32::MAX,
                self.hb_miss_cnt@.len() == old(self).hb_miss_cnt@.len(),
                group@.len() == old(group)@.len(),
                forall|j: int|
                    0 <= j < old(group)@.len() ==> #[trigger] group@[j] == if j < i && hb_miss@[j] == 1 {
                        Node { state: missed_state(old(self).hb_miss_cnt@[j] + 1), ..old(group)@[j] }
                    } else {
                        old(group)@[j]
                    },
                forall|j: int|
                    0 <= j < old(self).hb_miss_cnt@.len() ==> #[trigger] self.hb_miss_cnt@[j]
                        == if j < i && hb_miss@[j] == 1 {
                        (old(self).hb_miss_cnt@[j] + 1) as i32
                    } else {
                        old(self).hb_miss_cnt@[j]
                    },
            decreases agent_num - i,
        {
            if hb_miss[i] == 1 {
                let cnt = self.hb_miss_cnt[i] + 1;
                self.hb_miss_cnt.set(i, cnt);
                let mut node = group[i];
                if cnt >= HEARTBEAT_MISS_LIMIT {
                    node.state = NodeState::Dead;
                } else {
                    node.state = NodeState::Suspect;
                }
                group.set(i, node);
            }
            i = i + 1;
        }
    }

    /// A heartbeat marks its sender (the member numbered by its sequence number) alive.
    pub fn handle_hb(hb: &Packet, group: &mut Vec<Node>)
        requires
            (hb.header.seq_num as int) < old(group)@.len(),
        ensures
            final(group)@ == old(group)@.update(
                hb.header.seq_num as int,
                Node { state: NodeState::Alive, ..old(group)@[hb.header.seq_num as int] },
            ),
    {
        let agt_num = hb.header.seq_num as usize;
        let mut node = group[agt_num];
        node.state = NodeState::Alive;
        group.set(agt_num, node);
    }
}

/// Law: a member heard from in a round is not marked suspect or dead in that
/// round; one that misses a round is suspect until its misses reach the limit,
/// then dead for as long as no heartbeat comes.
pub proof fn lemma_heard_members_untouched(cnt: int)
    ensures
        cnt + 1 >= HEARTBEAT_MISS_LIMIT ==> missed_state(cnt + 1) == NodeState::Dead,
        cnt + 1 < HEARTBEAT_MISS_LIMIT ==> missed_state(cnt + 1) == NodeState::Suspect,
        cnt >= HEARTBEAT_MISS_LIMIT ==> missed_state(cnt + 1) == NodeState::Dead,
{
}

} // verus!
