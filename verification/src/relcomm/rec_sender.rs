//! The sender's decisions: sequence numbers per destination, the gossip
//! friends, which messages a request generates, the go-back-N window, and
//! what becomes of each message.
use vstd::prelude::*;
use vstd::slice::slice_subrange;
use crate::addr::SocketAddr;
use crate::relcomm::config::{GOSSIP_RATE, TIMEOUT_LIMIT, W_SIZE};
use crate::relcomm::node::{Node, NodeState};
use crate::relcomm::packet::{chunk_count, is_message_packet, Packet};
use crate::relcomm::rec_aux::{leader_of, Broadcast, RecAux, SendRequestData};

verus! {

/// The first counters entry of `a`: the next send and broadcast sequence numbers.
pub open spec fn counter_lookup(entries: Seq<(SocketAddr, (u32, u32))>, a: SocketAddr) -> (u32, u32)
    decreases entries.len(),
{
    if entries.len() == 0 {
        (0, 0)
    } else if entries[0].0 == a {
        entries[0].1
    } else {
        counter_lookup(entries.drop_first(), a)
    }
}

proof fn lemma_counter_update(entries: Seq<(SocketAddr, (u32, u32))>, idx: int, v: (u32, u32), k: SocketAddr)
    requires
        0 <= idx < entries.len(),
        forall|j: int| 0 <= j < idx ==> entries[j].0 != entries[idx].0,
    ensures
        counter_lookup(entries.update(idx, (entries[idx].0, v)), k) == if k == entries[idx].0 {
            v
        } else {
            counter_lookup(entries, k)
        },
    decreases entries.len(),
{
    let e2 = entries.update(idx, (entries[idx].0, v));
    if idx == 0 {
        assert(e2.drop_first() =~= entries.drop_first());
    } else {
        assert(e2[0] == entries[0]);
        assert(entries[0].0 != entries[idx].0);
        assert(e2.drop_first() =~= entries.drop_first().update(idx - 1, (entries[idx].0, v)));
        assert forall|j: int| 0 <= j < idx - 1 implies #[trigger] entries.drop_first()[j].0
            != entries.drop_first()[idx - 1].0 by {
            assert(entries.drop_first()[j] == entries[j + 1]);
        }
        lemma_counter_update(entries.drop_first(), idx - 1, v, k);
    }
}

proof fn lemma_counter_push(entries: Seq<(SocketAddr, (u32, u32))>, e: (SocketAddr, (u32, u32)), k: SocketAddr)
    requires
        forall|j: int| 0 <= j < entries.len() ==> entries[j].0 != e.0,
        e.1 == (0u32, 0u32),
    ensures
        counter_lookup(entries.push(e), k) == counter_lookup(entries, k),
    decreases entries.len(),
{
    if entries.len() == 0 {
        assert(entries.push(e)[0] == e);
        assert(entries.push(e).drop_first() =~= Seq::<(SocketAddr, (u32, u32))>::empty());
        assert(counter_lookup(entries.push(e).drop_first(), k) == (0u32, 0u32));
    } else {
        assert(entries.push(e)[0] == entries[0]);
        assert(entries.push(e).drop_first() =~= entries.drop_first().push(e));
        if entries[0].0 != k {
            assert forall|j: int| 0 <= j < entries.drop_first().len() implies #[trigger] entries.drop_first()[j].0
                != e.0 by {
                assert(entries.drop_first()[j] == entries[j + 1]);
            }
            lemma_counter_push(entries.drop_first(), e, k);
        }
    }
}

proof fn lemma_counter_absent(entries: Seq<(SocketAddr, (u32, u32))>, k: SocketAddr)
    requires
        forall|j: int| 0 <= j < entries.len() ==> entries[j].0 != k,
    ensures
        counter_lookup(entries, k) == (0u32, 0u32),
    decreases entries.len(),
{
    if entries.len() > 0 {
        assert(entries[0].0 != k);
        assert forall|j: int| 0 <= j < entries.drop_first().len() implies #[trigger] entries.drop_first()[j].0 != k by {
            assert(entries.drop_first()[j] == entries[j + 1]);
        }
        lemma_counter_absent(entries.drop_first(), k);
    }
}

/// The counters after a message of `count` packets to `a` (a broadcast one when `is_brd`).
pub open spec fn bump(
    ctrs: spec_fn(SocketAddr) -> (u32, u32),
    a: SocketAddr,
    count: nat,
    is_brd: bool,
) -> spec_fn(SocketAddr) -> (u32, u32) {
    |x: SocketAddr|
        if x == a {
            if is_brd {
                (ctrs(x).0, (ctrs(x).1 + count) as u32)
            } else {
                ((ctrs(x).0 + count) as u32, ctrs(x).1)
            }
        } else {
            ctrs(x)
        }
}

/// Law: two messages cut one after the other to the same destination, of the
/// same kind, are numbered back to back: the second starts just after the last
/// packet of the first. The counter of the other kind, and those of the other
/// destinations, do not move.
pub proof fn lemma_messages_back_to_back(
    ctrs: spec_fn(SocketAddr) -> (u32, u32),
    a: SocketAddr,
    count: nat,
    is_brd: bool,
    b: SocketAddr,
)
    requires
        fits(ctrs, a, count, is_brd),
    ensures
        start_of(bump(ctrs, a, count, is_brd), a, is_brd) == start_of(ctrs, a, is_brd) + count,
        start_of(bump(ctrs, a, count, is_brd), a, !is_brd) == start_of(ctrs, a, !is_brd),
        b != a ==> bump(ctrs, a, count, is_brd)(b) == ctrs(b),
{
}

/// The sequence number a message to `a` starts at.
pub open spec fn start_of(ctrs: spec_fn(SocketAddr) -> (u32, u32), a: SocketAddr, is_brd: bool) -> u32 {
    if is_brd {
        ctrs(a).1
    } else {
        ctrs(a).0
    }
}

/// A message of `count` packets to `a` leaves its counter within `u32`.
pub open spec fn fits(ctrs: spec_fn(SocketAddr) -> (u32, u32), a: SocketAddr, count: nat, is_brd: bool) -> bool {
    start_of(ctrs, a, is_brd) + count <= u32::MAX
}

/// The next send and broadcast sequence numbers per destination.
pub struct SeqCounters {
    pub entries: Vec<(SocketAddr, (u32, u32))>,
}

impl SeqCounters {
    /// The next send and broadcast sequence numbers for `a`.
    pub open spec fn counter(&self, a: SocketAddr) -> (u32, u32) {
        counter_lookup(self.entries@, a)
    }

    pub open spec fn view(&self) -> spec_fn(SocketAddr) -> (u32, u32) {
        |a: SocketAddr| counter_lookup(self.entries@, a)
    }

    pub fn new() -> (res: SeqCounters)
        ensures
            forall|a: SocketAddr| #[trigger] res.counter(a) == (0u32, 0u32),
    {
        SeqCounters { entries: Vec::new() }
    }

    fn find(&self, a: SocketAddr) -> (idx: usize)
        ensures
            idx <= self.entries@.len(),
            forall|j: int| 0 <= j < idx ==> self.entries@[j].0 != a,
            idx < self.entries@.len() ==> self.entries@[idx as int].0 == a,
    {
        let mut idx: usize = 0;
        while idx < self.entries.len()
            invariant
                idx <= self.entries@.len(),
                forall|j: int| 0 <= j < idx ==> self.entries@[j].0 != a,
            decreases self.entries@.len() - idx,
        {
            if self.entries[idx].0 == a {
                return idx;
            }
            idx = idx + 1;
        }
        idx
    }

    /// The next send and broadcast sequence numbers for `a`.
    pub fn get(&self, a: SocketAddr) -> (c: (u32, u32))
        ensures
            c == self.counter(a),
    {
        let idx = self.find(a);
        if idx == self.entries.len() {
            proof {
                lemma_counter_absent(self.entries@, a);
            }
            (0, 0)
        } else {
            proof {
                lemma_counter_update(self.entries@, idx as int, self.entries@[idx as int].1, a);
                assert(self.entries@.update(idx as int, (a, self.entries@[idx as int].1)) =~= self.entries@);
            }
            self.entries[idx].1
        }
    }

    /// Cuts a message to `dst_addr` into packets numbered from the destination's
    /// send counter (broadcast counter when `is_brd`) and advances that counter
    /// past them.
    pub fn get_pkts(
        &mut self,
        src_addr: &SocketAddr,
        dst_addr: &SocketAddr,
        origin: &SocketAddr,
        data: Vec<u8>,
        is_brd: bool,
    ) -> (packets: Vec<Packet>)
        requires
            fits(old(self).view(), *dst_addr, chunk_count(data@.len()), is_brd),
        ensures
            packets@.len() == chunk_count(data@.len()),
            forall|i: int|
                0 <= i < packets@.len() ==> is_message_packet(
                    #[trigger] packets@[i],
                    *src_addr,
                    *dst_addr,
                    *origin,
                    data@,
                    start_of(old(self).view(), *dst_addr, is_brd),
                    is_brd,
                    i,
                ),
            forall|a: SocketAddr|
                #[trigger] final(self).counter(a) == (bump(
                    old(self).view(),
                    *dst_addr,
                    chunk_count(data@.len()),
                    is_brd,
                ))(a),
            !is_brd ==> final(self).counter(*dst_addr).0 == old(self).counter(*dst_addr).0 + packets@.len()
                && final(self).counter(*dst_addr).1 == old(self).counter(*dst_addr).1,
            is_brd ==> final(self).counter(*dst_addr).1 == old(self).counter(*dst_addr).1 + packets@.len()
                && final(self).counter(*dst_addr).0 == old(self).counter(*dst_addr).0,
            forall|a: SocketAddr| a != *dst_addr ==> #[trigger] final(self).counter(a) == old(self).counter(a),
    {
        let ghost old_view = self.view();
        let ghost count = chunk_count(data@.len());
        let mut idx = self.find(*dst_addr);
        if idx == self.entries.len() {
            let fresh: (SocketAddr, (u32, u32)) = (*dst_addr, (0u32, 0u32));
            proof {
                assert forall|k: SocketAddr| true implies counter_lookup(self.entries@.push(fresh), k)
                    == counter_lookup(self.entries@, k) by {
                    lemma_counter_push(self.entries@, fresh, k);
                }
            }
            self.entries.push(fresh);
        }
        let ghost mid = self.entries@;
        proof {
            assert forall|k: SocketAddr| true implies counter_lookup(mid, k) == old_view(k) by {}
            assert(counter_lookup(mid, *dst_addr) == mid[idx as int].1) by {
                lemma_counter_update(mid, idx as int, mid[idx as int].1, *dst_addr);
                assert(mid.update(idx as int, (*dst_addr, mid[idx as int].1)) =~= mid);
            }
        }
        let (send_seq, brd_seq) = self.entries[idx].1;
        let seq_num = if is_brd { brd_seq } else { send_seq };
        let packets = Packet::packets_from_message(*src_addr, *dst_addr, *origin, data, seq_num, is_brd);
        let n = packets.len() as u32;
        let updated = if is_brd { (send_seq, brd_seq + n) } else { (send_seq + n, brd_seq) };
        proof {
            assert forall|k: SocketAddr| true implies counter_lookup(mid.update(idx as int, (*dst_addr, updated)), k)
                == (bump(old_view, *dst_addr, count, is_brd))(k) by {
                lemma_counter_update(mid, idx as int, updated, k);
            }
        }
        self.entries.set(idx, (*dst_addr, updated));
        packets
    }
}

/// The addresses of the members not known dead, in group order.
pub open spec fn living_addrs(g: Seq<Node>) -> Seq<SocketAddr>
    decreases g.len(),
{
    if g.len() == 0 {
        Seq::empty()
    } else if g.last().state != NodeState::Dead {
        living_addrs(g.drop_last()).push(g.last().addr)
    } else {
        living_addrs(g.drop_last())
    }
}

/// Where the friends start among the living addresses: just after the host's
/// place (its last occurrence), or at the beginning when the host is absent.
pub open spec fn friends_start(g: Seq<Node>, host_number: usize) -> int
    decreases g.len(),
{
    if g.len() == 0 {
        0
    } else if g.last().agent_number == host_number {
        living_addrs(g).len() as int
    } else {
        friends_start(g.drop_last(), host_number)
    }
}

pub proof fn lemma_friends_start_bound(g: Seq<Node>, host_number: usize)
    ensures
        0 <= friends_start(g, host_number) <= living_addrs(g).len(),
        living_addrs(g).len() <= g.len(),
    decreases g.len(),
{
    if g.len() > 0 {
        lemma_friends_start_bound(g.drop_last(), host_number);
    }
}

/// The gossip friends: the `rate` living members that follow the host,
/// wrapping around the group.
pub open spec fn friends_of(g: Seq<Node>, host_number: usize, rate: nat) -> Seq<SocketAddr> {
    let a = living_addrs(g);
    let start = friends_start(g, host_number);
    let end = (start + rate) % (a.len() as int);
    if start < end {
        a.subrange(start, end)
    } else {
        a.subrange(start, a.len() as int) + a.subrange(0, end)
    }
}

/// Law: the gossip friends go round the living members, in group order, from
/// just after the host's place among them: with `n` living members and the
/// friends starting at place `start`, the `i`-th friend is the living member at
/// place `(start + i) mod n`. There are `rate mod n` of them, or all `n` when
/// that is 0 and the host is not the last living member.
pub proof fn lemma_friends_ring(g: Seq<Node>, host_number: usize, rate: nat)
    requires
        living_addrs(g).len() > 0,
    ensures
        ({
            let a = living_addrs(g);
            let n = a.len() as int;
            let start = friends_start(g, host_number);
            let f = friends_of(g, host_number, rate);
            &&& f.len() == (if (rate as int) % n == 0 && start < n { n } else { (rate as int) % n })
            &&& forall|i: int| 0 <= i < f.len() ==> #[trigger] f[i] == a[(start + i) % n]
        }),
{
    let a = living_addrs(g);
    let n = a.len() as int;
    let start = friends_start(g, host_number);
    lemma_friends_start_bound(g, host_number);
    let end = (start + rate) % n;
    let f = friends_of(g, host_number, rate);
    let r = rate as int % n;
    vstd::arithmetic::div_mod::lemma_add_mod_noop(start, rate as int, n);
    vstd::arithmetic::div_mod::lemma_mod_twice(rate as int, n);
    vstd::arithmetic::div_mod::lemma_add_mod_noop(start, r, n);
    assert(end == (start + r) % n);
    assert(0 <= r < n);
    if start < n {
        if start + r < n {
            vstd::arithmetic::div_mod::lemma_small_mod((start + r) as nat, n as nat);
            assert(end == start + r);
        } else {
            vstd::arithmetic::div_mod::lemma_small_mod((start + r - n) as nat, n as nat);
            vstd::arithmetic::div_mod::lemma_mod_sub_multiples_vanish(start + r, n);
            assert(end == start + r - n);
        }
    } else {
        assert(start == n);
        vstd::arithmetic::div_mod::lemma_small_mod(r as nat, n as nat);
        vstd::arithmetic::div_mod::lemma_mod_sub_multiples_vanish(start + r, n);
        assert(end == r);
    }
    assert forall|i: int| 0 <= i < f.len() implies #[trigger] f[i] == a[(start + i) % n] by {
        if start + i < n {
            vstd::arithmetic::div_mod::lemma_small_mod((start + i) as nat, n as nat);
        } else {
            vstd::arithmetic::div_mod::lemma_small_mod((start + i - n) as nat, n as nat);
            vstd::arithmetic::div_mod::lemma_mod_sub_multiples_vanish(start + i, n);
        }
    }
}

/// Every living address is the address of a living member.
proof fn lemma_living_member(g: Seq<Node>, p: int)
    requires
        0 <= p < living_addrs(g).len(),
    ensures
        exists|j: int| 0 <= j < g.len() && g[j].state != NodeState::Dead && #[trigger] g[j].addr == living_addrs(g)[p],
    decreases g.len(),
{
    let pre = g.drop_last();
    if p < living_addrs(pre).len() {
        lemma_living_member(pre, p);
        let j = choose|j: int| 0 <= j < pre.len() && pre[j].state != NodeState::Dead && #[trigger] pre[j].addr == living_addrs(pre)[p];
        assert(g[j] == pre[j]);
    } else {
        assert(g[g.len() - 1].addr == living_addrs(g)[p]);
    }
}

/// The host's address stands among the living addresses only at the place
/// just before the friends start.
proof fn lemma_host_place(g: Seq<Node>, k: int)
    requires
        0 <= k < g.len(),
        g[k].state != NodeState::Dead,
        forall|j: int| 0 <= j < g.len() && j != k ==> #[trigger] g[j].agent_number != g[k].agent_number,
        forall|j: int| 0 <= j < g.len() && j != k && g[j].state != NodeState::Dead ==> #[trigger] g[j].addr != g[k].addr,
    ensures
        1 <= friends_start(g, g[k].agent_number) <= living_addrs(g).len(),
        forall|p: int|
            0 <= p < living_addrs(g).len() ==> (#[trigger] living_addrs(g)[p] == g[k].addr <==> p
                == friends_start(g, g[k].agent_number) - 1),
    decreases g.len(),
{
    let h = g[k].agent_number;
    let pre = g.drop_last();
    let last = g[g.len() - 1];
    if k == g.len() - 1 {
        assert(living_addrs(g) == living_addrs(pre).push(last.addr));
        assert forall|p: int| 0 <= p < living_addrs(pre).len() implies living_addrs(pre)[p] != g[k].addr by {
            lemma_living_member(pre, p);
            let j = choose|j: int| 0 <= j < pre.len() && pre[j].state != NodeState::Dead && #[trigger] pre[j].addr == living_addrs(pre)[p];
            assert(g[j] == pre[j]);
        }
        assert forall|p: int| 0 <= p < living_addrs(g).len() implies (#[trigger] living_addrs(g)[p] == g[k].addr <==> p
            == friends_start(g, h) - 1) by {
            if p < living_addrs(pre).len() {
                assert(living_addrs(g)[p] == living_addrs(pre)[p]);
            }
        }
    } else {
        assert(pre[k] == g[k]);
        assert forall|j: int| 0 <= j < pre.len() && j != k implies #[trigger] pre[j].agent_number != pre[k].agent_number by {
            assert(pre[j] == g[j]);
        }
        assert forall|j: int| 0 <= j < pre.len() && j != k && pre[j].state != NodeState::Dead implies #[trigger] pre[j].addr != pre[k].addr by {
            assert(pre[j] == g[j]);
        }
        lemma_host_place(pre, k);
        assert(last.agent_number != h);
        assert(friends_start(g, h) == friends_start(pre, h));
        assert forall|p: int| 0 <= p < living_addrs(g).len() implies (#[trigger] living_addrs(g)[p] == g[k].addr <==> p
            == friends_start(g, h) - 1) by {
            if last.state != NodeState::Dead {
                assert(living_addrs(g) == living_addrs(pre).push(last.addr));
                if p < living_addrs(pre).len() {
                    assert(living_addrs(g)[p] == living_addrs(pre)[p]);
                } else {
                    assert(last.addr != g[k].addr);
                }
            } else {
                assert(living_addrs(g) == living_addrs(pre));
            }
        }
    }
}

/// Law: a living host, the only member with its number and whose address no
/// other living member shares, is never its own gossip friend when it gossips
/// to at least one and fewer than all living members.
pub proof fn lemma_host_not_own_friend(g: Seq<Node>, k: int, rate: nat)
    requires
        0 <= k < g.len(),
        g[k].state != NodeState::Dead,
        forall|j: int| 0 <= j < g.len() && j != k ==> #[trigger] g[j].agent_number != g[k].agent_number,
        forall|j: int| 0 <= j < g.len() && j != k && g[j].state != NodeState::Dead ==> #[trigger] g[j].addr != g[k].addr,
        0 < rate < living_addrs(g).len(),
    ensures
        !friends_of(g, g[k].agent_number, rate).contains(g[k].addr),
{
    let h = g[k].agent_number;
    lemma_host_place(g, k);
    lemma_friends_ring(g, h, rate);
    let a = living_addrs(g);
    let n = a.len() as int;
    let start = friends_start(g, h);
    let f = friends_of(g, h, rate);
    vstd::arithmetic::div_mod::lemma_small_mod(rate, n as nat);
    assert(f.len() == rate);
    if f.contains(g[k].addr) {
        let i = choose|i: int| 0 <= i < f.len() && f[i] == g[k].addr;
        assert(f[i] == a[(start + i) % n]);
        if start + i < n {
            vstd::arithmetic::div_mod::lemma_small_mod((start + i) as nat, n as nat);
        } else {
            vstd::arithmetic::div_mod::lemma_small_mod((start + i - n) as nat, n as nat);
            vstd::arithmetic::div_mod::lemma_mod_sub_multiples_vanish(start + i, n);
        }
        assert(a[(start + i) % n] == g[k].addr);
    }
}

/// A message to send: its destination, origin, first sequence number and
/// whether it belongs to a broadcast.
pub struct MessagePlan {
    pub dst_addr: SocketAddr,
    pub origin: SocketAddr,
    pub seq_num: u32,
    pub is_brd: bool,
}

/// The packets of a message cut as `m` says.
pub open spec fn is_planned(ps: Seq<Packet>, src: SocketAddr, m: MessagePlan, data: Seq<u8>) -> bool {
    &&& ps.len() == chunk_count(data.len())
    &&& forall|i: int|
        0 <= i < ps.len() ==> is_message_packet(
            #[trigger] ps[i],
            src,
            m.dst_addr,
            m.origin,
            data,
            m.seq_num,
            m.is_brd,
            i,
        )
}

/// The broadcast messages to the members of `g` in order, each counted on the
/// counters; `only` keeps those to the given addresses (all when `None`).
/// Returns the kept messages, the counters after all of them, and whether every
/// counter stayed within `u32`.
pub open spec fn broadcast_plan(
    ctrs: spec_fn(SocketAddr) -> (u32, u32),
    g: Seq<Node>,
    host: SocketAddr,
    count: nat,
    only: Option<Seq<SocketAddr>>,
) -> (Seq<MessagePlan>, spec_fn(SocketAddr) -> (u32, u32), bool)
    decreases g.len(),
{
    if g.len() == 0 {
        (Seq::empty(), ctrs, true)
    } else {
        let (ms, c, ok) = broadcast_plan(ctrs, g.drop_last(), host, count, only);
        let a = g.last().addr;
        let m = MessagePlan { dst_addr: a, origin: host, seq_num: start_of(c, a, true), is_brd: true };
        let kept = match only {
            Some(f) => f.contains(a),
            None => true,
        };
        (if kept { ms.push(m) } else { ms }, bump(c, a, count, true), ok && fits(c, a, count, true))
    }
}

/// The messages that a request generates, with the counters after them and
/// whether the counters stayed within `u32`.
pub open spec fn request_plan(
    ctrs: spec_fn(SocketAddr) -> (u32, u32),
    g: Seq<Node>,
    host: Node,
    broadcast: Broadcast,
    rate: nat,
    options: SendRequestData,
    count: nat,
) -> (Seq<MessagePlan>, spec_fn(SocketAddr) -> (u32, u32), bool) {
    match options {
        SendRequestData::Send { destination_address } => (
            seq![MessagePlan { dst_addr: destination_address, origin: host.addr, seq_num: start_of(ctrs, destination_address, false), is_brd: false }],
            bump(ctrs, destination_address, count, false),
            fits(ctrs, destination_address, count, false),
        ),
        SendRequestData::RequestLeader {} => {
            let l = leader_of(g, host).addr;
            (
                seq![MessagePlan { dst_addr: l, origin: host.addr, seq_num: start_of(ctrs, l, true), is_brd: true }],
                bump(ctrs, l, count, true),
                fits(ctrs, l, count, true),
            )
        },
        SendRequestData::Gossip { origin, seq_num } => (
            friends_of(g, host.agent_number, rate).map_values(
                |f: SocketAddr| MessagePlan { dst_addr: f, origin, seq_num, is_brd: true },
            ),
            ctrs,
            seq_num + count <= u32::MAX + 1,
        ),
        SendRequestData::StartBroadcast {} => match broadcast {
            Broadcast::BEB => broadcast_plan(ctrs, g, host.addr, count, None),
            _ => broadcast_plan(ctrs, g, host.addr, count, Some(friends_of(g, host.agent_number, rate))),
        },
    }
}

/// The friends can be computed: some member is not known dead, and the
/// index after the host's place plus the rate stays within `usize`.
pub open spec fn friends_defined(g: Seq<Node>, host_number: usize, rate: nat) -> bool {
    living_addrs(g).len() > 0 && friends_start(g, host_number) + rate <= usize::MAX
}

/// How many members of `g` have address `a`.
pub open spec fn occurrences(g: Seq<Node>, a: SocketAddr) -> nat
    decreases g.len(),
{
    if g.len() == 0 {
        0
    } else {
        occurrences(g.drop_last(), a) + if g.last().addr == a { 1nat } else { 0nat }
    }
}

/// The broadcast message to the `i`-th member keeps its counter within `u32`,
/// counting the messages to the same address before it.
pub open spec fn brd_fits_at(ctrs: spec_fn(SocketAddr) -> (u32, u32), g: Seq<Node>, i: int, count: nat) -> bool {
    ctrs(g[i].addr).1 + count * (occurrences(g.subrange(0, i), g[i].addr) + 1) <= u32::MAX
}

/// A broadcast plan stays within `u32` exactly when every message fits at its
/// turn; the counters then grow by one message per occurrence of an address.
proof fn lemma_broadcast_ok(
    ctrs: spec_fn(SocketAddr) -> (u32, u32),
    g: Seq<Node>,
    host: SocketAddr,
    count: nat,
    only: Option<Seq<SocketAddr>>,
)
    ensures
        broadcast_plan(ctrs, g, host, count, only).2 <==> forall|i: int| 0 <= i < g.len() ==> brd_fits_at(ctrs, g, i, count),
        broadcast_plan(ctrs, g, host, count, only).2 ==> forall|a: SocketAddr|
            ctrs(a).1 + count * #[trigger] occurrences(g, a) <= u32::MAX,
        broadcast_plan(ctrs, g, host, count, only).2 ==> forall|a: SocketAddr|
            #[trigger] (broadcast_plan(ctrs, g, host, count, only).1)(a) == (ctrs(a).0, (ctrs(a).1 + count * occurrences(g, a)) as u32),
    decreases g.len(),
{
    if g.len() == 0 {
        assert forall|a: SocketAddr| ctrs(a).1 + count * #[trigger] occurrences(g, a) <= u32::MAX by {
            assert(count * 0 == 0) by (nonlinear_arith);
            assert(occurrences(g, a) == 0);
        }
        assert forall|a: SocketAddr| #[trigger] (broadcast_plan(ctrs, g, host, count, only).1)(a) == (ctrs(a).0, (ctrs(a).1 + count * occurrences(g, a)) as u32) by {
            assert(count * 0 == 0) by (nonlinear_arith);
            assert(occurrences(g, a) == 0);
        }
    } else {
        let gp = g.drop_last();
        lemma_broadcast_ok(ctrs, gp, host, count, only);
        let x = g.last().addr;
        let bp = broadcast_plan(ctrs, gp, host, count, only);
        let c = bp.1;
        let okp = bp.2;
        assert(broadcast_plan(ctrs, g, host, count, only).2 == (okp && fits(c, x, count, true)));
        assert(broadcast_plan(ctrs, g, host, count, only).1 == bump(c, x, count, true));
        assert forall|i: int| 0 <= i < gp.len() implies brd_fits_at(ctrs, gp, i, count) == brd_fits_at(ctrs, g, i, count) by {
            assert(gp.subrange(0, i) =~= g.subrange(0, i));
            assert(gp[i] == g[i]);
        }
        assert(g.subrange(0, g.len() - 1) =~= gp);
        if okp {
            let o = occurrences(gp, x);
            assert(ctrs(x).1 + count * occurrences(gp, x) <= u32::MAX);
            assert(c(x) == (ctrs(x).0, (ctrs(x).1 + count * o) as u32));
            assert(c(x).1 == ctrs(x).1 + count * o);
            assert(count * (o + 1) == count * o + count) by (nonlinear_arith);
            assert(brd_fits_at(ctrs, g, g.len() - 1, count) == (ctrs(x).1 + count * (o + 1) <= u32::MAX));
            assert(fits(c, x, count, true) == (c(x).1 + count <= u32::MAX));
            if brd_fits_at(ctrs, g, g.len() - 1, count) {
                assert forall|a: SocketAddr| ctrs(a).1 + count * #[trigger] occurrences(g, a) <= u32::MAX by {
                    if a == x {
                        assert(occurrences(g, a) == o + 1);
                    } else {
                        assert(occurrences(g, a) == occurrences(gp, a));
                    }
                }
                assert forall|a: SocketAddr| #[trigger] (broadcast_plan(ctrs, g, host, count, only).1)(a) == (ctrs(a).0, (ctrs(a).1 + count * occurrences(g, a)) as u32) by {
                    if a == x {
                        assert(occurrences(g, a) == o + 1);
                    } else {
                        assert(occurrences(g, a) == occurrences(gp, a));
                        assert(c(a) == (ctrs(a).0, (ctrs(a).1 + count * occurrences(gp, a)) as u32));
                    }
                }
            }
        } else {
            assert(!(forall|i: int| 0 <= i < g.len() ==> brd_fits_at(ctrs, g, i, count))) by {
                let i = choose|i: int| 0 <= i < gp.len() && !brd_fits_at(ctrs, gp, i, count);
                assert(!brd_fits_at(ctrs, g, i, count));
            }
        }
    }
}

/// A broadcast plan that stays within `u32` does so on every prefix of the group.
pub proof fn lemma_plan_prefix_ok(
    ctrs: spec_fn(SocketAddr) -> (u32, u32),
    g: Seq<Node>,
    host: SocketAddr,
    count: nat,
    only: Option<Seq<SocketAddr>>,
    k: int,
)
    requires
        0 <= k <= g.len(),
        broadcast_plan(ctrs, g, host, count, only).2,
    ensures
        broadcast_plan(ctrs, g.subrange(0, k), host, count, only).2,
    decreases g.len() - k,
{
    if k < g.len() {
        assert(g.drop_last() =~= g.subrange(0, g.len() - 1));
        assert(g.drop_last().subrange(0, k) =~= g.subrange(0, k));
        lemma_plan_prefix_ok(ctrs, g.drop_last(), host, count, only, k);
    } else {
        assert(g.subrange(0, k) =~= g);
    }
}

/// A copy of a byte vector.
fn copy_bytes(v: &Vec<u8>) -> (r: Vec<u8>)
    ensures
        r@ == v@,
{
    let r = v.clone();
    assert(r@ =~= v@);
    r
}

/// Whether `v` holds `a`.
pub fn contains_addr(v: &Vec<SocketAddr>, a: &SocketAddr) -> (res: bool)
    ensures
        res == v@.contains(*a),
{
    let mut i: usize = 0;
    while i < v.len()
        invariant
            i <= v@.len(),
            forall|j: int| 0 <= j < i ==> v@[j] != *a,
        decreases v@.len() - i,
    {
        if v[i] == *a {
            assert(v@[i as int] == *a);
            return true;
        }
        i = i + 1;
    }
    false
}

/// The sender's standing data.
pub struct RecSender {
    pub host: Node,
    pub dst_seq_num_cnt: SeqCounters,
    pub broadcast: Broadcast,
    pub timeout_limit: u32,
    pub w_size: usize,
    pub gossip_rate: usize,
}

impl RecAux for RecSender {}

impl RecSender {
    pub fn new(host: Node, broadcast: Broadcast) -> (res: RecSender)
        ensures
            res.host == host,
            res.broadcast == broadcast,
            forall|a: SocketAddr| #[trigger] res.dst_seq_num_cnt.counter(a) == (0u32, 0u32),
            res.timeout_limit == TIMEOUT_LIMIT,
            res.w_size == W_SIZE,
            res.gossip_rate == GOSSIP_RATE,
    {
        RecSender {
            host,
            dst_seq_num_cnt: SeqCounters::new(),
            broadcast,
            timeout_limit: TIMEOUT_LIMIT,
            w_size: W_SIZE,
            gossip_rate: GOSSIP_RATE,
        }
    }

    /// The gossip friends: the next `gossip_rate` members not known dead after
    /// the host, wrapping around the group.
    pub fn get_friends(&self, group: &Vec<Node>) -> (friends: Vec<SocketAddr>)
        requires
            friends_defined(group@, self.host.agent_number, self.gossip_rate as nat),
        ensures
            friends@ == friends_of(group@, self.host.agent_number, self.gossip_rate as nat),
    {
        let mut living: Vec<SocketAddr> = Vec::new();
        let mut start: usize = 0;
        let mut i: usize = 0;
        while i < group.len()
            invariant
                i <= group@.len(),
                friends_defined(group@, self.host.agent_number, self.gossip_rate as nat),
                living@ == living_addrs(group@.subrange(0, i as int)),
                start == friends_start(group@.subrange(0, i as int), self.host.agent_number),
            decreases group@.len() - i,
        {
            let ghost pre = group@.subrange(0, i as int);
            let ghost cur = group@.subrange(0, i + 1);
            proof {
                assert(cur.drop_last() =~= pre);
                lemma_friends_start_bound(pre, self.host.agent_number);
            }
            if !group[i].is_dead() {
                living.push(group[i].addr);
            }
            if group[i].agent_number == self.host.agent_number {
                start = living.len();
            }
            i = i + 1;
        }
        proof {
            assert(group@.subrange(0, group@.len() as int) =~= group@);
            lemma_friends_start_bound(group@, self.host.agent_number);
        }
        let end = (start + self.gossip_rate) % living.len();
        let mut friends: Vec<SocketAddr> = Vec::new();
        if start < end {
            friends.extend_from_slice(slice_subrange(living.as_slice(), start, end));
        } else {
            friends.extend_from_slice(slice_subrange(living.as_slice(), start, living.len()));
            friends.extend_from_slice(slice_subrange(living.as_slice(), 0, end));
        }
        proof {
            assert(friends@ =~= friends_of(group@, self.host.agent_number, self.gossip_rate as nat));
        }
        friends
    }

    /// Whether the gossip friends can be computed: some member is not known
    /// dead and the arithmetic on the group's size fits.
    pub fn friends_ok(&self, group: &Vec<Node>) -> (ok: bool)
        ensures
            ok == friends_defined(group@, self.host.agent_number, self.gossip_rate as nat),
    {
        let mut living: usize = 0;
        let mut start: usize = 0;
        let mut i: usize = 0;
        while i < group.len()
            invariant
                i <= group@.len(),
                living == living_addrs(group@.subrange(0, i as int)).len(),
                start == friends_start(group@.subrange(0, i as int), self.host.agent_number),
                living <= i,
            decreases group@.len() - i,
        {
            proof {
                assert(group@.subrange(0, i + 1).drop_last() =~= group@.subrange(0, i as int));
                lemma_friends_start_bound(group@.subrange(0, i as int), self.host.agent_number);
            }
            if !group[i].is_dead() {
                living = living + 1;
            }
            if group[i].agent_number == self.host.agent_number {
                start = living;
            }
            i = i + 1;
        }
        proof {
            assert(group@.subrange(0, group@.len() as int) =~= group@);
        }
        living > 0 && start.checked_add(self.gossip_rate).is_some()
    }

    /// Whether every broadcast message to the members keeps its counter
    /// within `u32`, counting the messages to the same address before it.
    fn brd_fits(&self, group: &Vec<Node>, count: usize) -> (ok: bool)
        requires
            count <= 0x80_0000_0000_0000,
        ensures
            ok == forall|i: int| 0 <= i < group@.len() ==> brd_fits_at(self.dst_seq_num_cnt.view(), group@, i, count as nat),
    {
        let ghost ctrs = self.dst_seq_num_cnt.view();
        let mut i: usize = 0;
        while i < group.len()
            invariant
                i <= group@.len(),
                count <= 0x80_0000_0000_0000,
                ctrs == self.dst_seq_num_cnt.view(),
                forall|j: int| 0 <= j < i ==> brd_fits_at(ctrs, group@, j, count as nat),
            decreases group@.len() - i,
        {
            let a = group[i].addr;
            let mut occ: usize = 0;
            let mut j: usize = 0;
            while j < i
                invariant
                    j <= i,
                    i < group@.len(),
                    count <= 0x80_0000_0000_0000,
                    ctrs == self.dst_seq_num_cnt.view(),
                    forall|k: int| 0 <= k < i ==> brd_fits_at(ctrs, group@, k, count as nat),
                    a == group@[i as int].addr,
                    occ == occurrences(group@.subrange(0, j as int), a),
                    occ <= j,
                decreases i - j,
            {
                proof {
                    assert(group@.subrange(0, j + 1).drop_last() =~= group@.subrange(0, j as int));
                }
                if group[j].addr == a {
                    occ = occ + 1;
                }
                j = j + 1;
            }
            let c = self.dst_seq_num_cnt.get(a);
            let occ1: u128 = occ as u128 + 1;
            assert((count as u128) * occ1 <= 0x80_0000_0000_0000u128 * 0x1_0000_0000_0000_0000u128) by (nonlinear_arith)
                requires
                    count <= 0x80_0000_0000_0000,
                    occ1 <= 0x1_0000_0000_0000_0000u128,
            {
            }
            let total: u128 = c.1 as u128 + (count as u128) * occ1;
            proof {
                assert(c.1 == ctrs(a).1);
                assert(total == ctrs(group@[i as int].addr).1 + (count as nat) * (occurrences(group@.subrange(0, i as int), group@[i as int].addr) + 1));
            }
            if total > 0xffff_ffff {
                proof {
                    assert(!brd_fits_at(ctrs, group@, i as int, count as nat));
                }
                return false;
            }
            i = i + 1;
        }
        true
    }

    /// Whether `get_messages` can take this request: every sequence counter
    /// it advances stays within `u32`, and where it gossips, the friends can
    /// be computed.
    pub fn can_plan(&self, group: &Vec<Node>, data_len: usize, options: SendRequestData) -> (ok: bool)
        ensures
            ok == (request_plan(
                self.dst_seq_num_cnt.view(),
                group@,
                self.host,
                self.broadcast,
                self.gossip_rate as nat,
                options,
                chunk_count(data_len as nat),
            ).2 && ((options is Gossip || (options is StartBroadcast && self.broadcast != Broadcast::BEB))
                ==> friends_defined(group@, self.host.agent_number, self.gossip_rate as nat))),
    {
        let count: usize = data_len / 997 + if data_len % 997 == 0 { 0 } else { 1 };
        assert(count == chunk_count(data_len as nat));
        assert(count <= 0x80_0000_0000_0000) by (nonlinear_arith)
            requires
                data_len <= 0xffff_ffff_ffff_ffffu64,
                count == data_len / 997 + if data_len % 997 == 0 { 0int } else { 1int },
        {
        }
        match options {
            SendRequestData::Send { destination_address } => {
                let c = self.dst_seq_num_cnt.get(destination_address);
                (c.0 as u128) + (count as u128) <= 0xffff_ffff
            },
            SendRequestData::RequestLeader {} => {
                let leader = Self::get_leader(group, &self.host);
                let c = self.dst_seq_num_cnt.get(leader.addr);
                (c.1 as u128) + (count as u128) <= 0xffff_ffff
            },
            SendRequestData::Gossip { origin, seq_num } => {
                self.friends_ok(group) && (seq_num as u128) + (count as u128) <= 0x1_0000_0000
            },
            SendRequestData::StartBroadcast {} => {
                let needs_friends = self.broadcast != Broadcast::BEB;
                let friends = if needs_friends { self.friends_ok(group) } else { true };
                let only: Option<Seq<SocketAddr>> = None;
                proof {
                    lemma_broadcast_ok(self.dst_seq_num_cnt.view(), group@, self.host.addr, count as nat, None);
                    lemma_broadcast_ok(
                        self.dst_seq_num_cnt.view(),
                        group@,
                        self.host.addr,
                        count as nat,
                        Some(friends_of(group@, self.host.agent_number, self.gossip_rate as nat)),
                    );
                }
                friends && self.brd_fits(group, count)
            },
        }
    }

    /// The messages that a request generates, each cut into packets; sequence
    /// counters advance for every message counted, whether or not it is kept.
    pub fn get_messages(&mut self, group: &Vec<Node>, data: &Vec<u8>, options: SendRequestData) -> (messages:
        Vec<Vec<Packet>>)
        requires
            request_plan(
                old(self).dst_seq_num_cnt.view(),
                group@,
                old(self).host,
                old(self).broadcast,
                old(self).gossip_rate as nat,
                options,
                chunk_count(data@.len()),
            ).2,
            (options is Gossip || (options is StartBroadcast && old(self).broadcast != Broadcast::BEB))
                ==> friends_defined(group@, old(self).host.agent_number, old(self).gossip_rate as nat),
        ensures
            ({
                let plan = request_plan(
                    old(self).dst_seq_num_cnt.view(),
                    group@,
                    old(self).host,
                    old(self).broadcast,
                    old(self).gossip_rate as nat,
                    options,
                    chunk_count(data@.len()),
                );
                &&& messages@.len() == plan.0.len()
                &&& forall|i: int|
                    0 <= i < messages@.len() ==> is_planned(
                        #[trigger] messages@[i]@,
                        old(self).host.addr,
                        plan.0[i],
                        data@,
                    )
                &&& forall|a: SocketAddr| #[trigger] final(self).dst_seq_num_cnt.counter(a) == (plan.1)(a)
            }),
            final(self).host == old(self).host,
            final(self).broadcast == old(self).broadcast,
            final(self).gossip_rate == old(self).gossip_rate,
            final(self).timeout_limit == old(self).timeout_limit,
            final(self).w_size == old(self).w_size,
    {
        let ghost count = chunk_count(data@.len());
        let ghost ctrs0 = self.dst_seq_num_cnt.view();
        let host = self.host.addr;
        let mut messages: Vec<Vec<Packet>> = Vec::new();
        match options {
            SendRequestData::Send { destination_address } => {
                let packets = self.dst_seq_num_cnt.get_pkts(&host, &destination_address, &host, copy_bytes(data), false);
                messages.push(packets);
            },
            SendRequestData::RequestLeader {} => {
                let leader = Self::get_leader(group, &self.host);
                let packets = self.dst_seq_num_cnt.get_pkts(&host, &leader.addr, &host, copy_bytes(data), true);
                messages.push(packets);
            },
            SendRequestData::Gossip { origin, seq_num } => {
                let friends = self.get_friends(group);
                let ghost plan = friends@.map_values(
                    |f: SocketAddr| MessagePlan { dst_addr: f, origin, seq_num, is_brd: true },
                );
                let mut i: usize = 0;
                while i < friends.len()
                    invariant
                        i <= friends@.len(),
                        plan == friends@.map_values(
                            |f: SocketAddr| MessagePlan { dst_addr: f, origin, seq_num, is_brd: true },
                        ),
                        seq_num + chunk_count(data@.len()) <= u32::MAX + 1,
                        messages@.len() == i,
                        forall|j: int| 0 <= j < i ==> is_planned(#[trigger] messages@[j]@, host, plan[j], data@),
                        forall|a: SocketAddr| #[trigger] self.dst_seq_num_cnt.counter(a) == ctrs0(a),
                        self.host == old(self).host,
                        self.broadcast == old(self).broadcast,
                        self.gossip_rate == old(self).gossip_rate,
                        self.timeout_limit == old(self).timeout_limit,
                        self.w_size == old(self).w_size,
                        self.host.addr == host,
                    decreases friends@.len() - i,
                {
                    let packets = Packet::packets_from_message(host, friends[i], origin, copy_bytes(data), seq_num, true);
                    messages.push(packets);
                    i = i + 1;
                }
            },
            SendRequestData::StartBroadcast {} => {
                let only: Option<Vec<SocketAddr>> = match self.broadcast {
                    Broadcast::BEB => None,
                    _ => Some(self.get_friends(group)),
                };
                let ghost only_view: Option<Seq<SocketAddr>> = match &only {
                    Some(f) => Some(f@),
                    None => None,
                };
                proof {
                    assert(broadcast_plan(ctrs0, group@, host, count, only_view) == request_plan(
                        ctrs0, group@, self.host, self.broadcast, self.gossip_rate as nat, options, count));
                    assert(group@.subrange(0, 0) =~= Seq::<Node>::empty());
                }
                let mut i: usize = 0;
                while i < group.len()
                    invariant
                        i <= group@.len(),
                        count == chunk_count(data@.len()),
                        broadcast_plan(ctrs0, group@, host, count, only_view).2,
                        only_view == (match &only { Some(f) => Some(f@), None => None::<Seq<SocketAddr>> }),
                        ({
                            let p = broadcast_plan(ctrs0, group@.subrange(0, i as int), host, count, only_view);
                            &&& messages@.len() == p.0.len()
                            &&& forall|j: int| 0 <= j < messages@.len() ==> is_planned(#[trigger] messages@[j]@, host, p.0[j], data@)
                            &&& forall|a: SocketAddr| #[trigger] self.dst_seq_num_cnt.counter(a) == (p.1)(a)
                        }),
                        self.host == old(self).host,
                        self.broadcast == old(self).broadcast,
                        self.gossip_rate == old(self).gossip_rate,
                        self.timeout_limit == old(self).timeout_limit,
                        self.w_size == old(self).w_size,
                        self.host.addr == host,
                    decreases group@.len() - i,
                {
                    let ghost pre = group@.subrange(0, i as int);
                    let ghost cur = group@.subrange(0, i + 1);
                    proof {
                        assert(cur.drop_last() =~= pre);
                        lemma_plan_prefix_ok(ctrs0, group@, host, count, only_view, i + 1);
                    }
                    let dst = group[i].addr;
                    let ghost p_pre = broadcast_plan(ctrs0, pre, host, count, only_view);
                    let ghost before = self.dst_seq_num_cnt.view();
                    proof {
                        assert(cur.last() == group@[i as int]);
                        assert(fits(p_pre.1, dst, count, true));
                        assert(before(dst) == self.dst_seq_num_cnt.counter(dst));
                        assert forall|a: SocketAddr| #[trigger] before(a) == p_pre.1(a) by {
                            assert(before(a) == self.dst_seq_num_cnt.counter(a));
                        }
                    }
                    let packets = self.dst_seq_num_cnt.get_pkts(&host, &dst, &host, copy_bytes(data), true);
                    let kept = match &only {
                        Some(f) => contains_addr(f, &dst),
                        None => true,
                    };
                    let ghost m = MessagePlan { dst_addr: dst, origin: host, seq_num: start_of(p_pre.1, dst, true), is_brd: true };
                    proof {
                        assert(start_of(before, dst, true) == start_of(p_pre.1, dst, true));
                        assert forall|a: SocketAddr| #[trigger] self.dst_seq_num_cnt.counter(a) == (bump(p_pre.1, dst, count, true))(a) by {
                            assert(before(a) == p_pre.1(a));
                            assert(before(dst) == p_pre.1(dst));
                        }
                    }
                    if kept {
                        messages.push(packets);
                        proof {
                            assert(messages@.last()@ == packets@);
                        }
                    }
                    i = i + 1;
                }
                proof {
                    assert(group@.subrange(0, group@.len() as int) =~= group@);
                }
            },
        }
        messages
    }
}

/// The state of a go-back-N transfer of `len` packets whose first sequence
/// number is `first_seq`: every packet before `base` is acknowledged, every
/// packet before `next_seq_num` has been sent since the last timeout.
#[derive(Clone, Copy, Debug, PartialEq, Eq, Structural)]
pub struct GoBackN {
    pub base: usize,
    pub next_seq_num: usize,
    pub timeout_count: u32,
    pub len: usize,
    pub first_seq: u32,
    pub w_size: usize,
    pub timeout_limit: u32,
}

impl GoBackN {
    pub fn new(len: usize, first_seq: u32, w_size: usize, timeout_limit: u32) -> (res: GoBackN)
        ensures
            res == (GoBackN { base: 0, next_seq_num: 0, timeout_count: 0, len, first_seq, w_size, timeout_limit }),
    {
        GoBackN { base: 0, next_seq_num: 0, timeout_count: 0, len, first_seq, w_size, timeout_limit }
    }

    /// The transfer of `packets`, numbered from the first one's sequence
    /// number; `None` when there is nothing to send, a transfer that fails.
    pub fn start(packets: &Vec<Packet>, w_size: usize, timeout_limit: u32) -> (res: Option<GoBackN>)
        ensures
            packets@.len() == 0 <==> res is None,
            res matches Some(g) ==> g == (GoBackN {
                base: 0,
                next_seq_num: 0,
                timeout_count: 0,
                len: packets@.len() as usize,
                first_seq: packets@[0].header.seq_num,
                w_size,
                timeout_limit,
            }),
    {
        if packets.len() == 0 {
            None
        } else {
            Some(GoBackN::new(packets.len(), packets[0].header.seq_num, w_size, timeout_limit))
        }
    }

    /// Every packet is acknowledged: the transfer succeeded.
    pub fn is_done(&self) -> (res: bool)
        ensures
            res == (self.base >= self.len),
    {
        self.base >= self.len
    }

    /// The packets to send now, `from..to`: those of the window after the last one
    /// sent. The window is the `w_size` packets from `base`, cut at the end.
    pub fn window(&mut self) -> (range: (usize, usize))
        requires
            old(self).base + old(self).w_size <= usize::MAX,
        ensures
            ({
                let limit = if old(self).base + old(self).w_size < old(self).len {
                    old(self).base + old(self).w_size
                } else {
                    old(self).len as int
                };
                &&& range.0 == old(self).next_seq_num
                &&& range.1 == if old(self).next_seq_num < limit { limit } else { old(self).next_seq_num as int }
                &&& *final(self) == (GoBackN { next_seq_num: range.1, ..*old(self) })
            }),
    {
        let from = self.next_seq_num;
        let limit = if self.base + self.w_size < self.len { self.base + self.w_size } else { self.len };
        if self.next_seq_num < limit {
            self.next_seq_num = limit;
        }
        (from, self.next_seq_num)
    }

    /// An acknowledgement of the packet numbered `ack_seq` acknowledges every
    /// packet up to it: the window slides past it and the timeouts are forgotten.
    pub fn on_ack(&mut self, ack_seq: u32)
        requires
            old(self).first_seq <= ack_seq,
            ack_seq - old(self).first_seq < u32::MAX,
        ensures
            *final(self) == (GoBackN {
                base: (ack_seq - old(self).first_seq + 1) as usize,
                timeout_count: 0,
                ..*old(self)
            }),
    {
        self.base = (ack_seq - self.first_seq + 1) as usize;
        self.timeout_count = 0;
    }

    /// A timeout: the window is sent again. Gives up (`true`) when the target is
    /// dead, or when it is not known alive and the timeouts reach the limit.
    pub fn on_timeout(&mut self, target: NodeState) -> (give_up: bool)
        requires
            old(self).timeout_count < u32::MAX,
        ensures
            *final(self) == (GoBackN {
                next_seq_num: old(self).base,
                timeout_count: (old(self).timeout_count + 1) as u32,
                ..*old(self)
            }),
            give_up == (target == NodeState::Dead || (target != NodeState::Alive
                && final(self).timeout_count == old(self).timeout_limit)),
    {
        self.next_seq_num = self.base;
        self.timeout_count = self.timeout_count + 1;
        if target == NodeState::Dead {
            return true;
        }
        !(target == NodeState::Alive) && self.timeout_count == self.timeout_limit
    }
}

/// Law: the sender never has more than `w_size` packets in flight beyond the
/// acknowledged ones, and never sends past the last packet.
pub proof fn lemma_window_bounded(g: GoBackN, range: (usize, usize), g2: GoBackN)
    requires
        g.base <= g.next_seq_num,
        g.next_seq_num <= g.base + g.w_size,
        g.next_seq_num <= g.len || g.base >= g.len,
        range.0 == g.next_seq_num,
        ({
            let limit = if g.base + g.w_size < g.len { g.base + g.w_size } else { g.len as int };
            range.1 == if g.next_seq_num < limit { limit } else { g.next_seq_num as int }
        }),
        g2 == (GoBackN { next_seq_num: range.1, ..g }),
    ensures
        g2.next_seq_num <= g2.base + g2.w_size,
        g2.base < g2.len ==> g2.next_seq_num <= g2.len,
        range.0 <= range.1,
{
}

/// One step of a go-back-N transfer, as the sender takes it.
pub enum GbnStep {
    /// The packets `from..to` are sent (`window`).
    Send { from: usize, to: usize },
    /// An acknowledgement of the packet numbered `seq` arrives (`on_ack`).
    Ack { seq: u32 },
    /// No acknowledgement came in time (`on_timeout`).
    Timeout,
}

/// What `window`, `on_ack` and `on_timeout` make of the state `g`.
pub open spec fn gbn_step(g: GoBackN, step: GbnStep, g2: GoBackN) -> bool {
    match step {
        GbnStep::Send { from, to } => {
            let limit = if g.base + g.w_size < g.len { g.base + g.w_size } else { g.len as int };
            &&& from == g.next_seq_num
            &&& to == if g.next_seq_num < limit { limit } else { g.next_seq_num as int }
            &&& g2 == (GoBackN { next_seq_num: to, ..g })
        },
        GbnStep::Ack { seq } => {
            &&& g.first_seq <= seq
            &&& g2 == (GoBackN { base: (seq - g.first_seq + 1) as usize, timeout_count: 0, ..g })
        },
        GbnStep::Timeout => g2 == (GoBackN {
            next_seq_num: g.base,
            timeout_count: (g.timeout_count + 1) as u32,
            ..g
        }),
    }
}

/// An acknowledgement that neither goes back before what was acknowledged
/// nor runs ahead of what was sent since the last timeout.
pub open spec fn ack_in_order(g: GoBackN, step: GbnStep) -> bool {
    step matches GbnStep::Ack { seq } ==> g.base <= seq - g.first_seq + 1 <= g.next_seq_num
}

/// The shape that every state of a transfer keeps: the packets sent since the
/// last timeout start at the first unacknowledged one, number at most
/// `w_size`, and end within the message.
pub open spec fn gbn_shape(g: GoBackN) -> bool {
    &&& g.base <= g.next_seq_num
    &&& g.next_seq_num <= g.base + g.w_size
    &&& g.next_seq_num <= g.len
}

proof fn lemma_transfer_prefix(states: Seq<GoBackN>, steps: Seq<GbnStep>, k: int)
    requires
        states.len() == steps.len() + 1,
        states[0].base == 0,
        states[0].next_seq_num == 0,
        forall|i: int|
            0 <= i < steps.len() ==> gbn_step(states[i], #[trigger] steps[i], states[i + 1])
                && ack_in_order(states[i], steps[i]),
        0 <= k <= steps.len(),
    ensures
        gbn_shape(states[k]),
        states[k].w_size == states[0].w_size,
        states[k].len == states[0].len,
    decreases k,
{
    if k > 0 {
        lemma_transfer_prefix(states, steps, k - 1);
        let step = steps[k - 1];
        assert(gbn_step(states[k - 1], step, states[k]) && ack_in_order(states[k - 1], step));
    }
}

/// Law: in a transfer that starts with nothing sent and whose acknowledgements
/// come in order, every send is of packets from the first unacknowledged one
/// on, at most `w_size` past it and within the message; after a timeout the
/// next send starts again at the first unacknowledged packet.
pub proof fn lemma_transfer_window(states: Seq<GoBackN>, steps: Seq<GbnStep>)
    requires
        states.len() == steps.len() + 1,
        states[0].base == 0,
        states[0].next_seq_num == 0,
        forall|i: int|
            0 <= i < steps.len() ==> gbn_step(states[i], #[trigger] steps[i], states[i + 1])
                && ack_in_order(states[i], steps[i]),
    ensures
        forall|i: int| 0 <= i < states.len() ==> #[trigger] gbn_shape(states[i]),
        forall|i: int|
            0 <= i < steps.len() ==> (#[trigger] steps[i] matches GbnStep::Send { from, to } ==> {
                &&& states[i].base <= from <= to
                &&& to <= states[i].base + states[i].w_size
                &&& to <= states[i].len
            }),
        forall|i: int|
            0 <= i < steps.len() - 1 && #[trigger] steps[i] is Timeout ==> (steps[i + 1] matches GbnStep::Send {
                from,
                ..
            } ==> from == states[i].base),
{
    assert forall|i: int| 0 <= i < states.len() implies #[trigger] gbn_shape(states[i]) by {
        lemma_transfer_prefix(states, steps, i);
    }
    assert forall|i: int| 0 <= i < steps.len() implies (#[trigger] steps[i] matches GbnStep::Send { from, to } ==> {
        &&& states[i].base <= from <= to
        &&& to <= states[i].base + states[i].w_size
        &&& to <= states[i].len
    }) by {
        lemma_transfer_prefix(states, steps, i);
        assert(gbn_step(states[i], steps[i], states[i + 1]));
    }
    assert forall|i: int| 0 <= i < steps.len() - 1 && #[trigger] steps[i] is Timeout implies (steps[i + 1] matches GbnStep::Send {
        from,
        ..
    } ==> from == states[i].base) by {
        assert(gbn_step(states[i], steps[i], states[i + 1]));
        assert(gbn_step(states[i + 1], steps[i + 1], states[i + 2]));
    }
}

/// What to do with a message, given the state of its destination.
#[derive(Clone, Copy, Debug, PartialEq, Eq, Structural)]
pub enum Dispatch {
    /// The destination is dead: the message is dropped.
    Skip,
    /// Send the message; when `retry_later`, keep it for the next request if it fails.
    Send { retry_later: bool },
}

/// A dead destination gets nothing; one not yet heard from gets the message,
/// which is kept for a later try if it fails.
pub fn dispatch(target: NodeState) -> (d: Dispatch)
    ensures
        d == (if target == NodeState::Dead {
            Dispatch::Skip
        } else {
            Dispatch::Send { retry_later: target == NodeState::Unborn }
        }),
{
    if target == NodeState::Dead {
        Dispatch::Skip
    } else {
        Dispatch::Send { retry_later: target == NodeState::Unborn }
    }
}

/// The index of the first member with address `addr`.
pub open spec fn node_index(g: Seq<Node>, addr: SocketAddr) -> Option<int>
    decreases g.len(),
{
    if g.len() == 0 {
        None
    } else if g[0].addr == addr {
        Some(0)
    } else {
        match node_index(g.drop_first(), addr) {
            Some(i) => Some(i + 1),
            None => None,
        }
    }
}

/// The first member with address `addr`, if any.
pub fn find_node(group: &Vec<Node>, addr: &SocketAddr) -> (res: Option<usize>)
    ensures
        res matches Some(i) ==> node_index(group@, *addr) == Some(i as int) && i < group@.len(),
        res is None ==> node_index(group@, *addr) is None,
{
    let mut i: usize = 0;
    assert(group@.subrange(0, group@.len() as int) =~= group@);
    while i < group.len()
        invariant
            i <= group@.len(),
            node_index(group@.subrange(i as int, group@.len() as int), *addr) matches Some(k)
                ==> node_index(group@, *addr) == Some(i + k),
            node_index(group@.subrange(i as int, group@.len() as int), *addr) is None
                ==> node_index(group@, *addr) is None,
        decreases group@.len() - i,
    {
        let ghost rest = group@.subrange(i as int, group@.len() as int);
        if group[i].addr == *addr {
            assert(node_index(rest, *addr) == Some(0int));
            return Some(i);
        }
        assert(rest.drop_first() =~= group@.subrange(i + 1, group@.len() as int));
        i = i + 1;
    }
    assert(group@.subrange(i as int, group@.len() as int) =~= Seq::<Node>::empty());
    None
}

/// The results of one request: how many messages went through, and the
/// messages kept for a later try.
pub struct SendRound {
    pub success_count: u32,
    pub msg_buffer: Vec<Vec<Packet>>,
}

impl SendRound {
    /// Starts a request: its own messages come first, then those kept from
    /// earlier requests, which leave the buffer.
    pub fn start(messages: Vec<Vec<Packet>>, msg_buffer: &mut Vec<Vec<Packet>>) -> (res: (SendRound, Vec<Vec<Packet>>))
        ensures
            res.1@ == messages@ + old(msg_buffer)@,
            final(msg_buffer)@ == Seq::<Vec<Packet>>::empty(),
            res.0.success_count == 0,
            res.0.msg_buffer@ == Seq::<Vec<Packet>>::empty(),
    {
        let mut all = messages;
        let mut kept = Vec::new();
        std::mem::swap(&mut kept, msg_buffer);
        all.append(&mut kept);
        (SendRound { success_count: 0, msg_buffer: Vec::new() }, all)
    }

    /// Records what became of a message: a success counts; a failure to a
    /// destination not yet heard from keeps the message for a later try.
    pub fn record(&mut self, delivered: bool, retry_later: bool, packets: Vec<Packet>)
        requires
            old(self).success_count < u32::MAX,
        ensures
            delivered ==> final(self).success_count == old(self).success_count + 1
                && final(self).msg_buffer@ == old(self).msg_buffer@,
            !delivered ==> final(self).success_count == old(self).success_count,
            !delivered && retry_later ==> final(self).msg_buffer@ == old(self).msg_buffer@.push(packets),
            !delivered && !retry_later ==> final(self).msg_buffer@ == old(self).msg_buffer@,
    {
        if delivered {
            self.success_count = self.success_count + 1;
        } else if retry_later {
            self.msg_buffer.push(packets);
        }
    }
}

} // verus!
