//! An agent's part in a scenario, as its two threads read it: what the sender
//! thread sends, what the receiver thread expects and when it stops.
use vstd::prelude::*;
use crate::harness::actions::{Action, ReceiveAction, SendAction};

verus! {

/// The agent is told to die before it starts.
pub open spec fn has_die(acts: Seq<Action>) -> bool {
    exists|i: int| 0 <= i < acts.len() && acts[i] is Die
}

/// The send actions, in order.
pub open spec fn sends_of(acts: Seq<Action>) -> Seq<SendAction>
    decreases acts.len(),
{
    if acts.len() == 0 {
        Seq::empty()
    } else {
        match acts.last() {
            Action::Send(s) => sends_of(acts.drop_last()).push(s),
            _ => sends_of(acts.drop_last()),
        }
    }
}

/// The receive actions, in order.
pub open spec fn receives_of(acts: Seq<Action>) -> Seq<ReceiveAction>
    decreases acts.len(),
{
    if acts.len() == 0 {
        Seq::empty()
    } else {
        match acts.last() {
            Action::Receive(r) => receives_of(acts.drop_last()).push(r),
            _ => receives_of(acts.drop_last()),
        }
    }
}

/// Parts an agent's actions between its sender and its receiver threads;
/// `None` when the agent is told to die, and so never starts.
pub fn split_actions(actions: Vec<Action>) -> (res: Option<(Vec<SendAction>, Vec<ReceiveAction>)>)
    ensures
        res is None <==> has_die(actions@),
        res matches Some((s, r)) ==> s@ == sends_of(actions@) && r@ == receives_of(actions@),
{
    let ghost all = actions@;
    let total = actions.len();
    assert(all.len() == total);
    let mut rest = actions;
    let mut sends: Vec<SendAction> = Vec::new();
    let mut receives: Vec<ReceiveAction> = Vec::new();
    let mut k: usize = 0;
    while rest.len() > 0
        invariant
            all.len() <= usize::MAX,
            k + rest@.len() == all.len(),
            rest@ == all.subrange(k as int, all.len() as int),
            sends@ == sends_of(all.subrange(0, k as int)),
            receives@ == receives_of(all.subrange(0, k as int)),
            !has_die(all.subrange(0, k as int)),
            all == actions@,
        decreases rest@.len(),
    {
        let ghost pre = all.subrange(0, k as int);
        let ghost cur = all.subrange(0, k + 1);
        proof {
            assert(cur.drop_last() =~= pre);
            assert(cur.last() == rest@[0]);
        }
        let action = rest.remove(0);
        match action {
            Action::Send(s) => {
                sends.push(s);
            },
            Action::Receive(r) => {
                receives.push(r);
            },
            Action::Die() => {
                proof {
                    assert(all[k as int] is Die);
                    assert(0 <= k < all.len());
                }
                return None;
            },
        }
        proof {
            assert(rest@ =~= all.subrange(k + 1, all.len() as int));
            assert forall|i: int| 0 <= i < cur.len() implies !(cur[i] is Die) by {
                if i < k {
                    assert(cur[i] == pre[i]);
                }
            }
        }
        k = k + 1;
    }
    proof {
        assert(all.subrange(0, k as int) =~= all);
    }
    Some((sends, receives))
}

/// The messages a receiver expects, in order.
pub open spec fn expected_of(acts: Seq<ReceiveAction>) -> Seq<Seq<char>>
    decreases acts.len(),
{
    if acts.len() == 0 {
        Seq::empty()
    } else {
        match acts.last() {
            ReceiveAction::Receive { message } => expected_of(acts.drop_last()).push(message@),
            _ => expected_of(acts.drop_last()),
        }
    }
}

/// How many messages a receiver takes before it dies: the count of its last
/// order to die, or no limit (`u32::MAX`).
pub open spec fn limit_of(acts: Seq<ReceiveAction>) -> u32
    decreases acts.len(),
{
    if acts.len() == 0 {
        u32::MAX
    } else {
        match acts.last() {
            ReceiveAction::DieAfterReceive { after_n_messages } => after_n_messages,
            _ => limit_of(acts.drop_last()),
        }
    }
}

/// The messages a receiver expects and how many it takes before it dies.
pub fn receive_plan(actions: Vec<ReceiveAction>) -> (res: (Vec<String>, u32))
    ensures
        res.0@.map_values(|s: String| s@) == expected_of(actions@),
        res.1 == limit_of(actions@),
{
    let ghost all = actions@;
    let total = actions.len();
    assert(all.len() == total);
    let mut rest = actions;
    let mut expected: Vec<String> = Vec::new();
    let mut msg_limit: u32 = u32::MAX;
    let mut k: usize = 0;
    while rest.len() > 0
        invariant
            all.len() <= usize::MAX,
            k + rest@.len() == all.len(),
            rest@ == all.subrange(k as int, all.len() as int),
            expected@.map_values(|s: String| s@) == expected_of(all.subrange(0, k as int)),
            msg_limit == limit_of(all.subrange(0, k as int)),
        decreases rest@.len(),
    {
        let ghost pre = all.subrange(0, k as int);
        let ghost cur = all.subrange(0, k + 1);
        proof {
            assert(cur.drop_last() =~= pre);
            assert(cur.last() == rest@[0]);
        }
        let action = rest.remove(0);
        let ghost before = expected@;
        match action {
            ReceiveAction::Receive { message } => {
                expected.push(message);
                proof {
                    assert(expected@.map_values(|s: String| s@) =~= before.map_values(|s: String| s@).push(
                        expected@.last()@,
                    ));
                }
            },
            ReceiveAction::DieAfterReceive { after_n_messages } => {
                msg_limit = after_n_messages;
            },
        }
        proof {
            assert(rest@ =~= all.subrange(k + 1, all.len() as int));
        }
        k = k + 1;
    }
    proof {
        assert(all.subrange(0, k as int) =~= all);
    }
    (expected, msg_limit)
}

/// Whether a received message is one of those expected.
pub fn is_expected(expected: &Vec<String>, msg: &String) -> (res: bool)
    ensures
        res == exists|i: int| 0 <= i < expected@.len() && #[trigger] expected@[i]@ == msg@,
{
    let mut i: usize = 0;
    while i < expected.len()
        invariant
            i <= expected@.len(),
            forall|j: int| 0 <= j < i ==> expected@[j]@ != msg@,
        decreases expected@.len() - i,
    {
        if expected[i] == *msg {
            return true;
        }
        i = i + 1;
    }
    false
}

/// Which of an agent's two threads ended it early.
#[derive(Clone, Copy, Debug, PartialEq, Eq, Structural)]
pub enum Ender {
    /// The sender thread, tagged "C".
    Sender,
    /// The receiver thread, tagged "R".
    Receiver,
}

/// The thread that a death tag names: "C" the sender, "R" the receiver; any
/// other tag names none.
pub open spec fn ender_of_tag(tag: Seq<char>) -> Option<Ender> {
    if tag == seq!['C'] {
        Some(Ender::Sender)
    } else if tag == seq!['R'] {
        Some(Ender::Receiver)
    } else {
        None
    }
}

/// Reads the tag with which a thread ends its agent.
pub fn ender_of(tag: &str) -> (res: Option<Ender>)
    ensures
        res == ender_of_tag(tag@),
{
    if tag.unicode_len() != 1 {
        return None;
    }
    let c = tag.get_char(0);
    if c == 'C' {
        assert(tag@ =~= seq!['C']);
        Some(Ender::Sender)
    } else if c == 'R' {
        assert(tag@ =~= seq!['R']);
        Some(Ender::Receiver)
    } else {
        assert(tag@ != seq!['C'] && tag@ != seq!['R']) by {
            if tag@ == seq!['C'] {
                assert(tag@[0] == 'C');
            }
            if tag@ == seq!['R'] {
                assert(tag@[0] == 'R');
            }
        }
        None
    }
}

/// The counts (sent, received) that an agent ended early reports: the count
/// of the thread that ended it, `n`, and the last count that the other thread
/// reported, `other_last` (0 when it reported none); nothing for an unknown tag.
pub fn early_counts(ender: Option<Ender>, n: u32, other_last: u32) -> (res: (u32, u32))
    ensures
        res == (match ender {
            Some(Ender::Sender) => (n, other_last),
            Some(Ender::Receiver) => (other_last, n),
            None => (0u32, 0u32),
        }),
{
    match ender {
        Some(Ender::Sender) => (n, other_last),
        Some(Ender::Receiver) => (other_last, n),
        None => (0, 0),
    }
}

} // verus!
