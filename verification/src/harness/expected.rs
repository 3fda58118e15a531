//! What a scenario is expected to achieve, and how a result is judged.
use vstd::prelude::*;
use crate::harness::actions::{test_model, Action, ActionModel, ReceiveAction, SendAction};

verus! {

/// The running counts of a scenario: per agent the messages it should send,
/// receive, and the deaths it should undergo; the messages sent and received
/// in all; and whether every count stayed within `usize`.
pub struct Tally {
    pub send: Seq<int>,
    pub recv: Seq<int>,
    pub die: Seq<int>,
    pub sent: int,
    pub received: int,
    pub ok: bool,
}

impl Tally {
    /// The messages sent and never received, in all.
    pub open spec fn rec_snd(self) -> int {
        self.sent - self.received
    }
}

pub open spec fn in_usize(x: int) -> bool {
    0 <= x <= usize::MAX
}

/// The counts after one action of agent `id` in a group of `n`.
pub open spec fn tally_action(t: Tally, id: int, a: ActionModel, n: int) -> Tally {
    match a {
        ActionModel::Send { .. } => Tally {
            send: t.send.update(id, t.send[id] + 1),
            sent: t.sent + 1,
            ok: t.ok && in_usize(t.send[id] + 1) && in_usize(t.sent + 1),
            ..t
        },
        ActionModel::Broadcast { .. } => Tally {
            send: t.send.update(id, t.send[id] + n),
            sent: t.sent + n,
            ok: t.ok && in_usize(t.send[id] + n) && in_usize(t.sent + n),
            ..t
        },
        ActionModel::Receive { .. } => Tally {
            recv: t.recv.update(id, t.recv[id] + 1),
            received: t.received + 1,
            ok: t.ok && in_usize(t.recv[id] + 1) && in_usize(t.received + 1),
            ..t
        },
        _ => Tally { die: t.die.update(id, t.die[id] + 1), ok: t.ok && in_usize(t.die[id] + 1), ..t },
    }
}

/// The counts after the actions of agent `id`.
pub open spec fn tally_agent(t: Tally, id: int, acts: Seq<ActionModel>, n: int) -> Tally
    decreases acts.len(),
{
    if acts.len() == 0 {
        t
    } else {
        tally_action(tally_agent(t, id, acts.drop_last(), n), id, acts.last(), n)
    }
}

/// The counts after the actions of the first agents.
pub open spec fn tally_agents(t: Tally, agents: Seq<Seq<ActionModel>>, n: int) -> Tally
    decreases agents.len(),
{
    if agents.len() == 0 {
        t
    } else {
        tally_agent(tally_agents(t, agents.drop_last(), n), agents.len() - 1, agents.last(), n)
    }
}

/// The counts of a scenario, before the final correction.
pub open spec fn tally(agents: Seq<Seq<ActionModel>>) -> Tally {
    let n = agents.len() as int;
    let zero = Seq::new(n as nat, |i: int| 0int);
    tally_agents(Tally { send: zero, recv: zero, die: zero, sent: 0, received: 0, ok: true }, agents, n)
}

/// The expected sends once the messages never received are taken off every
/// agent that sends.
pub open spec fn corrected_sends(t: Tally) -> Seq<int> {
    if t.rec_snd() > 0 {
        t.send.map_values(|s: int| if s > 0 { s - t.rec_snd() } else { s })
    } else {
        t.send
    }
}

/// The scenario's counts stay within `usize` and no correction goes below zero.
pub open spec fn expected_defined(agents: Seq<Seq<ActionModel>>) -> bool {
    let t = tally(agents);
    &&& t.ok
    &&& t.rec_snd() > 0 ==> forall|i: int| 0 <= i < t.send.len() && t.send[i] > 0 ==> t.send[i] >= t.rec_snd()
}

proof fn lemma_tally_shape(t: Tally, id: int, acts: Seq<ActionModel>, n: int)
    requires
        0 <= id < t.send.len(),
        t.send.len() == t.recv.len() == t.die.len(),
    ensures
        tally_agent(t, id, acts, n).send.len() == t.send.len(),
        tally_agent(t, id, acts, n).recv.len() == t.send.len(),
        tally_agent(t, id, acts, n).die.len() == t.send.len(),
        tally_agent(t, id, acts, n).ok ==> t.ok,
    decreases acts.len(),
{
    if acts.len() > 0 {
        lemma_tally_shape(t, id, acts.drop_last(), n);
    }
}

proof fn lemma_tally_agents_shape(t: Tally, agents: Seq<Seq<ActionModel>>, n: int)
    requires
        agents.len() <= t.send.len(),
        t.send.len() == t.recv.len() == t.die.len(),
    ensures
        tally_agents(t, agents, n).send.len() == t.send.len(),
        tally_agents(t, agents, n).recv.len() == t.send.len(),
        tally_agents(t, agents, n).die.len() == t.send.len(),
        tally_agents(t, agents, n).ok ==> t.ok,
    decreases agents.len(),
{
    if agents.len() > 0 {
        lemma_tally_agents_shape(t, agents.drop_last(), n);
        lemma_tally_shape(tally_agents(t, agents.drop_last(), n), agents.len() - 1, agents.last(), n);
    }
}

/// A tally that ends well was well all along.
proof fn lemma_tally_agent_prefix_ok(t: Tally, id: int, acts: Seq<ActionModel>, n: int, k: int)
    requires
        0 <= k <= acts.len(),
        0 <= id < t.send.len(),
        t.send.len() == t.recv.len() == t.die.len(),
        tally_agent(t, id, acts, n).ok,
    ensures
        tally_agent(t, id, acts.subrange(0, k), n).ok,
        k < acts.len() ==> tally_action(tally_agent(t, id, acts.subrange(0, k), n), id, acts[k], n).ok,
    decreases acts.len() - k,
{
    if k < acts.len() {
        assert(acts.drop_last() =~= acts.subrange(0, acts.len() - 1));
        lemma_tally_shape(t, id, acts.drop_last(), n);
        if k < acts.len() - 1 {
            assert(acts.drop_last().subrange(0, k) =~= acts.subrange(0, k));
            assert(acts.drop_last()[k] == acts[k]);
            lemma_tally_agent_prefix_ok(t, id, acts.drop_last(), n, k);
        } else {
            assert(acts.subrange(0, k) =~= acts.drop_last());
        }
    } else {
        assert(acts.subrange(0, k) =~= acts);
    }
}

proof fn lemma_tally_agents_prefix_ok(t: Tally, agents: Seq<Seq<ActionModel>>, n: int, k: int)
    requires
        0 <= k <= agents.len(),
        agents.len() <= t.send.len(),
        t.send.len() == t.recv.len() == t.die.len(),
        tally_agents(t, agents, n).ok,
    ensures
        tally_agents(t, agents.subrange(0, k), n).ok,
        k < agents.len() ==> tally_agent(tally_agents(t, agents.subrange(0, k), n), k, agents[k], n).ok,
    decreases agents.len() - k,
{
    if k < agents.len() {
        assert(agents.drop_last() =~= agents.subrange(0, agents.len() - 1));
        lemma_tally_agents_shape(t, agents.drop_last(), n);
        lemma_tally_shape(tally_agents(t, agents.drop_last(), n), agents.len() - 1, agents.last(), n);
        if k < agents.len() - 1 {
            assert(agents.drop_last().subrange(0, k) =~= agents.subrange(0, k));
            assert(agents.drop_last()[k] == agents[k]);
            lemma_tally_agents_prefix_ok(t, agents.drop_last(), n, k);
        } else {
            assert(agents.subrange(0, k) =~= agents.drop_last());
        }
    } else {
        assert(agents.subrange(0, k) =~= agents);
    }
}

/// The counts as `usize` vectors view them.
pub open spec fn as_ints(v: Seq<usize>) -> Seq<int> {
    v.map_values(|x: usize| x as int)
}

/// Per agent, the messages it is expected to send and receive and the deaths
/// it is expected to undergo. A broadcast counts one message per agent; the
/// messages sent but received by no one are then taken off every sender.
pub fn get_expected(test: &Vec<Vec<Action>>) -> (res: (Vec<usize>, Vec<usize>, Vec<usize>))
    requires
        expected_defined(test_model(test@)),
    ensures
        as_ints(res.0@) == corrected_sends(tally(test_model(test@))),
        as_ints(res.1@) == tally(test_model(test@)).recv,
        as_ints(res.2@) == tally(test_model(test@)).die,
{
    let ghost agents = test_model(test@);
    let agent_num: usize = test.len();
    let ghost n = agent_num as int;
    let ghost zero = Seq::new(n as nat, |i: int| 0int);
    let ghost t0 = Tally { send: zero, recv: zero, die: zero, sent: 0, received: 0, ok: true };
    let mut send_actions: Vec<usize> = Vec::new();
    let mut receive_actions: Vec<usize> = Vec::new();
    let mut die_actions: Vec<usize> = Vec::new();
    let mut i: usize = 0;
    while i < agent_num
        invariant
            i <= agent_num,
            agent_num == test@.len(),
            send_actions@.len() == i && receive_actions@.len() == i && die_actions@.len() == i,
            as_ints(send_actions@) == Seq::new(i as nat, |j: int| 0int),
            as_ints(receive_actions@) == Seq::new(i as nat, |j: int| 0int),
            as_ints(die_actions@) == Seq::new(i as nat, |j: int| 0int),
        decreases agent_num - i,
    {
        let ghost s0 = send_actions@;
        let ghost r0 = receive_actions@;
        let ghost d0 = die_actions@;
        send_actions.push(0);
        receive_actions.push(0);
        die_actions.push(0);
        proof {
            assert forall|j: int| 0 <= j < i + 1 implies #[trigger] send_actions@[j] == 0 by {
                if j < i {
                    assert(send_actions@[j] == s0[j]);
                    assert(as_ints(s0)[j] == 0);
                }
            }
            assert forall|j: int| 0 <= j < i + 1 implies #[trigger] receive_actions@[j] == 0 by {
                if j < i {
                    assert(receive_actions@[j] == r0[j]);
                    assert(as_ints(r0)[j] == 0);
                }
            }
            assert forall|j: int| 0 <= j < i + 1 implies #[trigger] die_actions@[j] == 0 by {
                if j < i {
                    assert(die_actions@[j] == d0[j]);
                    assert(as_ints(d0)[j] == 0);
                }
            }
        }
        i = i + 1;
        proof {
            assert(as_ints(send_actions@) =~= Seq::new(i as nat, |j: int| 0int));
            assert(as_ints(receive_actions@) =~= Seq::new(i as nat, |j: int| 0int));
            assert(as_ints(die_actions@) =~= Seq::new(i as nat, |j: int| 0int));
        }
    }
    proof {
        assert(agents.len() == n);
        assert(agents.subrange(0, 0) =~= Seq::<Seq<ActionModel>>::empty());
        lemma_tally_agents_shape(t0, agents, n);
    }
    let mut sent: usize = 0;
    let mut received: usize = 0;
    let mut id: usize = 0;
    while id < agent_num
        invariant
            id <= agent_num,
            agent_num == test@.len(),
            agents == test_model(test@),
            n == agent_num,
            t0 == (Tally { send: zero, recv: zero, die: zero, sent: 0, received: 0, ok: true }),
            zero == Seq::new(n as nat, |i: int| 0int),
            tally_agents(t0, agents, n) == tally(agents),
            tally(agents).ok,
            ({
                let t = tally_agents(t0, agents.subrange(0, id as int), n);
                &&& as_ints(send_actions@) == t.send
                &&& as_ints(receive_actions@) == t.recv
                &&& as_ints(die_actions@) == t.die
                &&& sent as int == t.sent
                &&& received as int == t.received
            }),
        decreases agent_num - id,
    {
        let ghost before = tally_agents(t0, agents.subrange(0, id as int), n);
        proof {
            lemma_tally_agents_prefix_ok(t0, agents, n, id as int);
            lemma_tally_agents_shape(t0, agents.subrange(0, id as int), n);
        }
        let actions = &test[id];
        let ghost acts = agents[id as int];
        assert(acts == actions@.map_values(|x: Action| x.model()));
        let mut k: usize = 0;
        while k < actions.len()
            invariant
                k <= actions@.len(),
                id < agent_num,
                n == agent_num,
                acts == actions@.map_values(|x: Action| x.model()),
                before.send.len() == n && before.recv.len() == n && before.die.len() == n,
                tally_agent(before, id as int, acts, n).ok,
                ({
                    let t = tally_agent(before, id as int, acts.subrange(0, k as int), n);
                    &&& as_ints(send_actions@) == t.send
                    &&& as_ints(receive_actions@) == t.recv
                    &&& as_ints(die_actions@) == t.die
                    &&& sent as int == t.sent
                    &&& received as int == t.received
                }),
            decreases actions@.len() - k,
        {
            let ghost t = tally_agent(before, id as int, acts.subrange(0, k as int), n);
            proof {
                lemma_tally_agent_prefix_ok(before, id as int, acts, n, k as int);
                lemma_tally_shape(before, id as int, acts.subrange(0, k as int), n);
                assert(acts.subrange(0, k + 1).drop_last() =~= acts.subrange(0, k as int));
                assert(acts[k as int] == actions@[k as int].model());
            }
            match &actions[k] {
                Action::Send(s) => {
                    match s {
                        SendAction::Send { .. } => {
                            let v = send_actions[id] + 1;
                            send_actions.set(id, v);
                            sent = sent + 1;
                        },
                        SendAction::Broadcast { .. } => {
                            let v = send_actions[id] + agent_num;
                            send_actions.set(id, v);
                            sent = sent + agent_num;
                        },
                        SendAction::DieAfterSend {} => {
                            let v = die_actions[id] + 1;
                            die_actions.set(id, v);
                        },
                    }
                },
                Action::Receive(r) => {
                    match r {
                        ReceiveAction::Receive { .. } => {
                            let v = receive_actions[id] + 1;
                            receive_actions.set(id, v);
                            received = received + 1;
                        },
                        ReceiveAction::DieAfterReceive { .. } => {
                            let v = die_actions[id] + 1;
                            die_actions.set(id, v);
                        },
                    }
                },
                Action::Die() => {
                    let v = die_actions[id] + 1;
                    die_actions.set(id, v);
                },
            }
            proof {
                let t2 = tally_agent(before, id as int, acts.subrange(0, k + 1), n);
                assert(as_ints(send_actions@) =~= t2.send);
                assert(as_ints(receive_actions@) =~= t2.recv);
                assert(as_ints(die_actions@) =~= t2.die);
            }
            k = k + 1;
        }
        proof {
            assert(acts.subrange(0, actions@.len() as int) =~= acts);
            assert(agents.subrange(0, id + 1).drop_last() =~= agents.subrange(0, id as int));
            assert(agents.subrange(0, id + 1).last() == acts);
        }
        id = id + 1;
    }
    proof {
        assert(agents.subrange(0, n) =~= agents);
    }
    if sent > received {
        let rec_snd = sent - received;
        let mut i: usize = 0;
        while i < agent_num
            invariant
                i <= agent_num,
                agent_num == n,
                rec_snd > 0,
                rec_snd as int == tally(agents).rec_snd(),
                expected_defined(agents),
                tally(agents).send.len() == n,
                as_ints(send_actions@).len() == n,
                forall|j: int| 0 <= j < n ==> (#[trigger] as_ints(send_actions@)[j]) == if j < i {
                    corrected_sends(tally(agents))[j]
                } else {
                    tally(agents).send[j]
                },
            decreases agent_num - i,
        {
            proof {
                assert(as_ints(send_actions@)[i as int] == send_actions@[i as int] as int);
                assert(as_ints(send_actions@)[i as int] == tally(agents).send[i as int]);
            }
            let ghost s0 = send_actions@;
            if send_actions[i] > 0 {
                let v = send_actions[i] - rec_snd;
                send_actions.set(i, v);
            }
            proof {
                assert forall|j: int| 0 <= j < n implies (#[trigger] as_ints(send_actions@)[j]) == if j < i + 1 {
                    corrected_sends(tally(agents))[j]
                } else {
                    tally(agents).send[j]
                } by {
                    assert(as_ints(s0)[j] == s0[j] as int);
                    assert(as_ints(send_actions@)[j] == send_actions@[j] as int);
                }
            }
            i = i + 1;
        }
        proof {
            assert(as_ints(send_actions@) =~= corrected_sends(tally(agents)));
        }
    }
    (send_actions, receive_actions, die_actions)
}

/// Whether the expected counts of a scenario can be computed: every count
/// stays within `usize` and no correction goes below zero. Where this is
/// false, `get_expected` cannot be called.
pub fn can_expect(test: &Vec<Vec<Action>>) -> (ok: bool)
    ensures
        ok == expected_defined(test_model(test@)),
{
    let ghost agents = test_model(test@);
    let agent_num: usize = test.len();
    let ghost n = agent_num as int;
    let ghost zero = Seq::new(n as nat, |i: int| 0int);
    let ghost t0 = Tally { send: zero, recv: zero, die: zero, sent: 0, received: 0, ok: true };
    let mut send_actions: Vec<usize> = Vec::new();
    let mut receive_actions: Vec<usize> = Vec::new();
    let mut die_actions: Vec<usize> = Vec::new();
    let mut i: usize = 0;
    while i < agent_num
        invariant
            i <= agent_num,
            agent_num == test@.len(),
            send_actions@.len() == i && receive_actions@.len() == i && die_actions@.len() == i,
            as_ints(send_actions@) == Seq::new(i as nat, |j: int| 0int),
            as_ints(receive_actions@) == Seq::new(i as nat, |j: int| 0int),
            as_ints(die_actions@) == Seq::new(i as nat, |j: int| 0int),
        decreases agent_num - i,
    {
        let ghost s0 = send_actions@;
        let ghost r0 = receive_actions@;
        let ghost d0 = die_actions@;
        send_actions.push(0);
        receive_actions.push(0);
        die_actions.push(0);
        proof {
            assert forall|j: int| 0 <= j < i + 1 implies #[trigger] send_actions@[j] == 0 by {
                if j < i {
                    assert(send_actions@[j] == s0[j]);
                    assert(as_ints(s0)[j] == 0);
                }
            }
            assert forall|j: int| 0 <= j < i + 1 implies #[trigger] receive_actions@[j] == 0 by {
                if j < i {
                    assert(receive_actions@[j] == r0[j]);
                    assert(as_ints(r0)[j] == 0);
                }
            }
            assert forall|j: int| 0 <= j < i + 1 implies #[trigger] die_actions@[j] == 0 by {
                if j < i {
                    assert(die_actions@[j] == d0[j]);
                    assert(as_ints(d0)[j] == 0);
                }
            }
        }
        i = i + 1;
        proof {
            assert(as_ints(send_actions@) =~= Seq::new(i as nat, |j: int| 0int));
            assert(as_ints(receive_actions@) =~= Seq::new(i as nat, |j: int| 0int));
            assert(as_ints(die_actions@) =~= Seq::new(i as nat, |j: int| 0int));
        }
    }
    proof {
        assert(agents.len() == n);
        assert(agents.subrange(0, 0) =~= Seq::<Seq<ActionModel>>::empty());
        lemma_tally_agents_shape(t0, agents, n);
    }
    let mut sent: usize = 0;
    let mut received: usize = 0;
    let mut id: usize = 0;
    while id < agent_num
        invariant
            id <= agent_num,
            agent_num == test@.len(),
            agents == test_model(test@),
            n == agent_num,
            t0 == (Tally { send: zero, recv: zero, die: zero, sent: 0, received: 0, ok: true }),
            zero == Seq::new(n as nat, |i: int| 0int),
            tally_agents(t0, agents, n) == tally(agents),
            ({
                let t = tally_agents(t0, agents.subrange(0, id as int), n);
                &&& t.ok
                &&& as_ints(send_actions@) == t.send
                &&& as_ints(receive_actions@) == t.recv
                &&& as_ints(die_actions@) == t.die
                &&& sent as int == t.sent
                &&& received as int == t.received
            }),
        decreases agent_num - id,
    {
        let ghost before = tally_agents(t0, agents.subrange(0, id as int), n);
        proof {
            lemma_tally_agents_shape(t0, agents.subrange(0, id as int), n);
        }
        let actions = &test[id];
        let ghost acts = agents[id as int];
        assert(acts == actions@.map_values(|x: Action| x.model()));
        let mut k: usize = 0;
        while k < actions.len()
            invariant
                k <= actions@.len(),
                id < agent_num,
                n == agent_num,
                agents == test_model(test@),
                agents.len() == n,
                acts == agents[id as int],
                t0 == (Tally { send: zero, recv: zero, die: zero, sent: 0, received: 0, ok: true }),
                zero == Seq::new(n as nat, |i: int| 0int),
                tally_agents(t0, agents, n) == tally(agents),
                before == tally_agents(t0, agents.subrange(0, id as int), n),
                acts == actions@.map_values(|x: Action| x.model()),
                before.send.len() == n && before.recv.len() == n && before.die.len() == n,
                ({
                    let t = tally_agent(before, id as int, acts.subrange(0, k as int), n);
                    &&& t.ok
                    &&& as_ints(send_actions@) == t.send
                    &&& as_ints(receive_actions@) == t.recv
                    &&& as_ints(die_actions@) == t.die
                    &&& sent as int == t.sent
                    &&& received as int == t.received
                }),
            decreases actions@.len() - k,
        {
            let ghost t = tally_agent(before, id as int, acts.subrange(0, k as int), n);
            proof {
                lemma_tally_shape(before, id as int, acts.subrange(0, k as int), n);
                assert(acts.subrange(0, k + 1).drop_last() =~= acts.subrange(0, k as int));
                assert(acts[k as int] == actions@[k as int].model());
                assert(as_ints(send_actions@)[id as int] == send_actions@[id as int] as int);
                assert(as_ints(receive_actions@)[id as int] == receive_actions@[id as int] as int);
                assert(as_ints(die_actions@)[id as int] == die_actions@[id as int] as int);
            }
            let step_ok = match &actions[k] {
                Action::Send(SendAction::Send { .. }) => match (send_actions[id].checked_add(1), sent.checked_add(1)) {
                    (Some(v), Some(r)) => {
                        send_actions.set(id, v);
                        sent = r;
                        true
                    },
                    _ => false,
                },
                Action::Send(SendAction::Broadcast { .. }) => match (send_actions[id].checked_add(agent_num), sent.checked_add(agent_num)) {
                    (Some(v), Some(r)) => {
                        send_actions.set(id, v);
                        sent = r;
                        true
                    },
                    _ => false,
                },
                Action::Receive(ReceiveAction::Receive { .. }) => match (receive_actions[id].checked_add(1), received.checked_add(1)) {
                    (Some(v), Some(r)) => {
                        receive_actions.set(id, v);
                        received = r;
                        true
                    },
                    _ => false,
                },
                _ => match die_actions[id].checked_add(1) {
                    Some(v) => {
                        die_actions.set(id, v);
                        true
                    },
                    None => false,
                },
            };
            if !step_ok {
                proof {
                    assert(!tally_action(t, id as int, acts[k as int], n).ok);
                    if expected_defined(agents) {
                        lemma_tally_agents_prefix_ok(t0, agents, n, id as int);
                        lemma_tally_agent_prefix_ok(before, id as int, acts, n, k as int);
                    }
                }
                return false;
            }
            proof {
                let t2 = tally_agent(before, id as int, acts.subrange(0, k + 1), n);
                assert(as_ints(send_actions@) =~= t2.send);
                assert(as_ints(receive_actions@) =~= t2.recv);
                assert(as_ints(die_actions@) =~= t2.die);
            }
            k = k + 1;
        }
        proof {
            assert(acts.subrange(0, actions@.len() as int) =~= acts);
            assert(agents.subrange(0, id + 1).drop_last() =~= agents.subrange(0, id as int));
            assert(agents.subrange(0, id + 1).last() == acts);
        }
        id = id + 1;
    }
    proof {
        assert(agents.subrange(0, n) =~= agents);
    }
    if sent > received {
        let rec_snd = sent - received;
        let mut i: usize = 0;
        while i < agent_num
            invariant
                i <= agent_num,
                agent_num == n,
                rec_snd > 0,
                rec_snd as int == tally(agents).rec_snd(),
                tally(agents).ok,
                tally(agents).send.len() == n,
                as_ints(send_actions@) == tally(agents).send,
                agents == test_model(test@),
                forall|j: int| 0 <= j < i ==> (tally(agents).send[j] > 0 ==> tally(agents).send[j] >= tally(agents).rec_snd()),
            decreases agent_num - i,
        {
            proof {
                assert(as_ints(send_actions@)[i as int] == send_actions@[i as int] as int);
            }
            if send_actions[i] > 0 && send_actions[i] < rec_snd {
                return false;
            }
            i = i + 1;
        }
    }
    true
}

/// A count is accepted when it is the expected one, or within `deaths` of it
/// either way.
pub open spec fn count_accepted(count: int, expected: int, deaths: int) -> bool {
    count == expected || (count <= expected + deaths && expected <= count + deaths)
}

/// The comparison of a count with the expected one stays within `usize`:
/// it adds the deaths to the expected count, and then to the count only when
/// the count does not exceed that sum.
pub open spec fn count_check_fits(count: int, expected: int, deaths: int) -> bool {
    count != expected ==> expected + deaths <= usize::MAX && (count <= expected + deaths ==> count
        + deaths <= usize::MAX)
}

/// Whether a count of sends or receives is accepted for an agent, deaths
/// being the number of agents expected to die.
pub fn check_count(count: usize, expected: usize, deaths: usize) -> (ok: bool)
    requires
        count_check_fits(count as int, expected as int, deaths as int),
    ensures
        ok == count_accepted(count as int, expected as int, deaths as int),
{
    if count == expected {
        return true;
    }
    count <= expected + deaths && expected <= count + deaths
}

/// Whether `check_count` can compare these numbers.
pub fn can_check_count(count: usize, expected: usize, deaths: usize) -> (ok: bool)
    ensures
        ok == count_check_fits(count as int, expected as int, deaths as int),
{
    if count == expected {
        return true;
    }
    match expected.checked_add(deaths) {
        None => false,
        Some(e) => count > e || count.checked_add(deaths).is_some(),
    }
}

/// How many entries are not zero.
pub open spec fn nonzero_count(s: Seq<usize>) -> nat
    decreases s.len(),
{
    if s.len() == 0 {
        0
    } else {
        nonzero_count(s.drop_last()) + if s.last() != 0 { 1nat } else { 0nat }
    }
}

/// How many agents are expected to die.
pub fn count_deaths(expected_d: &Vec<usize>) -> (deaths: usize)
    ensures
        deaths == nonzero_count(expected_d@),
{
    let mut deaths: usize = 0;
    let mut i: usize = 0;
    while i < expected_d.len()
        invariant
            i <= expected_d@.len(),
            deaths == nonzero_count(expected_d@.subrange(0, i as int)),
            deaths <= i,
        decreases expected_d@.len() - i,
    {
        proof {
            assert(expected_d@.subrange(0, i + 1).drop_last() =~= expected_d@.subrange(0, i as int));
        }
        if expected_d[i] != 0 {
            deaths = deaths + 1;
        }
        i = i + 1;
    }
    proof {
        assert(expected_d@.subrange(0, expected_d@.len() as int) =~= expected_d@);
    }
    deaths
}

} // verus!
