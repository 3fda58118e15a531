//! The decisions of the single-object variant: which messages a request
//! generates, the gossip friends, the listener's handling of data and
//! acknowledgements, and what to do with a complete broadcast.
use vstd::prelude::*;
use crate::addr::SocketAddr;
use crate::base::flags::LST;
use crate::base::packet::{chunk_count, concat_data, is_message_packet, Packet};
pub use crate::base::config::Broadcast;

verus! {

/// A member of the group.
#[derive(Clone, Copy, Debug, PartialEq, Eq, Structural)]
pub struct Node {
    pub addr: SocketAddr,
    pub agent_number: usize,
}

/// What the sender is asked to do.
pub struct SendRequest {
    pub destination_address: Option<SocketAddr>,
    pub origin_address: Option<SocketAddr>,
    pub start_sequence_number: Option<u32>,
    pub is_broadcast: bool,
    pub data: Vec<u8>,
}

/// The counter of the first entry of `a`, or 0.
pub open spec fn dest_lookup(entries: Seq<(SocketAddr, u32)>, a: SocketAddr) -> u32
    decreases entries.len(),
{
    if entries.len() == 0 {
        0
    } else if entries[0].0 == a {
        entries[0].1
    } else {
        dest_lookup(entries.drop_first(), a)
    }
}

proof fn lemma_dest_update(entries: Seq<(SocketAddr, u32)>, idx: int, v: u32, k: SocketAddr)
    requires
        0 <= idx < entries.len(),
        forall|j: int| 0 <= j < idx ==> entries[j].0 != entries[idx].0,
    ensures
        dest_lookup(entries.update(idx, (entries[idx].0, v)), k) == if k == entries[idx].0 {
            v
        } else {
            dest_lookup(entries, k)
        },
    decreases entries.len(),
{
    let e2 = entries.update(idx, (entries[idx].0, v));
    if idx == 0 {
        assert(e2.drop_first() =~= entries.drop_first());
    } else {
        assert(e2[0] == entries[0]);
        assert(entries[0].0 != entries[idx].0);
        assert(e2.drop_first() =~= entries.drop_first().update(idx - 1, (entries[idx].0, v)));
        assert forall|j: int| 0 <= j < idx - 1 implies #[trigger] entries.drop_first()[j].0
            != entries.drop_first()[idx - 1].0 by {
            assert(entries.drop_first()[j] == entries[j + 1]);
        }
        lemma_dest_update(entries.drop_first(), idx - 1, v, k);
    }
}

proof fn lemma_dest_push(entries: Seq<(SocketAddr, u32)>, e: (SocketAddr, u32), k: SocketAddr)
    requires
        forall|j: int| 0 <= j < entries.len() ==> entries[j].0 != e.0,
    ensures
        dest_lookup(entries.push(e), k) == if k == e.0 {
            e.1
        } else {
            dest_lookup(entries, k)
        },
    decreases entries.len(),
{
    if entries.len() == 0 {
        assert(entries.push(e)[0] == e);
        assert(entries.push(e).drop_first() =~= Seq::<(SocketAddr, u32)>::empty());
        assert(dest_lookup(entries.push(e).drop_first(), k) == 0);
    } else {
        assert(entries.push(e)[0] == entries[0]);
        assert(entries.push(e).drop_first() =~= entries.drop_first().push(e));
        if entries[0].0 != k {
            assert forall|j: int| 0 <= j < entries.drop_first().len() implies #[trigger] entries.drop_first()[j].0
                != e.0 by {
                assert(entries.drop_first()[j] == entries[j + 1]);
            }
            lemma_dest_push(entries.drop_first(), e, k);
        }
    }
}

proof fn lemma_dest_absent(entries: Seq<(SocketAddr, u32)>, k: SocketAddr)
    requires
        forall|j: int| 0 <= j < entries.len() ==> entries[j].0 != k,
    ensures
        dest_lookup(entries, k) == 0,
    decreases entries.len(),
{
    if entries.len() > 0 {
        assert forall|j: int| 0 <= j < entries.drop_first().len() implies #[trigger] entries.drop_first()[j].0 != k by {
            assert(entries.drop_first()[j] == entries[j + 1]);
        }
        lemma_dest_absent(entries.drop_first(), k);
    }
}

/// The next sequence number per destination.
pub struct DestCounters {
    pub entries: Vec<(SocketAddr, u32)>,
}

impl DestCounters {
    pub open spec fn counter(&self, a: SocketAddr) -> u32 {
        dest_lookup(self.entries@, a)
    }

    pub fn new() -> (res: DestCounters)
        ensures
            forall|a: SocketAddr| #[trigger] res.counter(a) == 0,
    {
        DestCounters { entries: Vec::new() }
    }

    fn find(&self, a: SocketAddr) -> (idx: usize)
        ensures
            idx <= self.entries@.len(),
            forall|j: int| 0 <= j < idx ==> self.entries@[j].0 != a,
            idx < self.entries@.len() ==> self.entries@[idx as int].0 == a,
    {
        let mut idx: usize = 0;
        while idx < self.entries.len()
            invariant
                idx <= self.entries@.len(),
                forall|j: int| 0 <= j < idx ==> self.entries@[j].0 != a,
            decreases self.entries@.len() - idx,
        {
            if self.entries[idx].0 == a {
                return idx;
            }
            idx = idx + 1;
        }
        idx
    }

    /// The counter of `a`.
    pub fn get(&self, a: SocketAddr) -> (v: u32)
        ensures
            v == self.counter(a),
    {
        let idx = self.find(a);
        if idx < self.entries.len() {
            proof {
                lemma_dest_update(self.entries@, idx as int, self.entries@[idx as int].1, a);
                assert(self.entries@.update(idx as int, (a, self.entries@[idx as int].1)) =~= self.entries@);
            }
            self.entries[idx].1
        } else {
            proof {
                lemma_dest_absent(self.entries@, a);
            }
            0
        }
    }

    /// Sets the counter of `a`.
    pub fn put(&mut self, a: SocketAddr, v: u32)
        ensures
            final(self).counter(a) == v,
            forall|k: SocketAddr| k != a ==> #[trigger] final(self).counter(k) == old(self).counter(k),
    {
        let idx = self.find(a);
        if idx < self.entries.len() {
            proof {
                assert forall|k: SocketAddr| true implies dest_lookup(self.entries@.update(idx as int, (a, v)), k)
                    == if k == a { v } else { dest_lookup(self.entries@, k) } by {
                    lemma_dest_update(self.entries@, idx as int, v, k);
                }
            }
            self.entries.set(idx, (a, v));
        } else {
            proof {
                assert forall|k: SocketAddr| true implies dest_lookup(self.entries@.push((a, v)), k)
                    == if k == a { v } else { dest_lookup(self.entries@, k) } by {
                    lemma_dest_push(self.entries@, (a, v), k);
                }
            }
            self.entries.push((a, v));
        }
    }
}

/// The members from `start` for `rate` places, wrapping around the group:
/// `group[start..end]`, or `group[start..] + group[..end]` when the range wraps.
pub open spec fn ring_friends(group: Seq<Node>, start: int, rate: int) -> Seq<Node> {
    let end = (start + rate) % (group.len() as int);
    if start < end {
        group.subrange(start, end)
    } else {
        group.subrange(start, group.len() as int) + group.subrange(0, end)
    }
}

/// A data packet is the last one of its message.
pub open spec fn is_last_packet(p: Packet) -> bool {
    p.header.flags.value & LST != 0
}

/// The buffer without the remnant of the previous message, if it starts with one.
pub open spec fn trimmed(buf: Seq<Packet>) -> Seq<Packet> {
    if buf.len() > 0 && is_last_packet(buf[0]) {
        buf.drop_first()
    } else {
        buf
    }
}

/// The sequence number the buffer of an origin expects next.
pub open spec fn expected_seq(buf: Seq<Packet>) -> int {
    if buf.len() == 0 {
        0
    } else {
        buf.last().header.seq_num + 1
    }
}

/// The sequence number of the first packet of the message that `last`
/// completes: the first one buffered after the remnant, or `last` itself
/// when the message has a single packet.
pub open spec fn message_start(buf: Seq<Packet>, last: Packet) -> u32 {
    if trimmed(buf).len() > 0 {
        trimmed(buf)[0].header.seq_num
    } else {
        last.header.seq_num
    }
}

/// What the reception of a data packet leads to.
pub enum Reception {
    Ignored,
    Duplicate,
    Buffered,
    Delivered { message: Seq<u8>, origin: SocketAddr, seq_num: u32 },
}

/// One step of the reception of data from one origin.
pub open spec fn receive_step(buf: Seq<Packet>, p: Packet) -> (Seq<Packet>, Reception) {
    let expected = expected_seq(buf);
    if p.header.seq_num > expected {
        (buf, Reception::Ignored)
    } else if p.header.seq_num < expected {
        (buf, Reception::Duplicate)
    } else if !is_last_packet(p) {
        (buf.push(p), Reception::Buffered)
    } else {
        (
            seq![p],
            Reception::Delivered {
                message: concat_data(trimmed(buf)) + p.data@,
                origin: p.header.origin,
                seq_num: message_start(buf, p),
            },
        )
    }
}

/// The packet is ahead of the buffer: past the successor of the last buffered
/// packet, or past 0 when nothing is buffered.
pub open spec fn ahead_of(buf: Seq<Packet>, p: Packet) -> bool {
    ||| buf.len() == 0 && p.header.seq_num > 0
    ||| buf.len() > 0 && p.header.seq_num > buf.last().header.seq_num + 1
}

/// Law: a data packet ahead of the buffer of its origin is dropped, whatever
/// the buffer holds: it is reported ignored and the buffer stays as it was.
pub proof fn lemma_ahead_ignored(buf: Seq<Packet>, p: Packet)
    requires
        ahead_of(buf, p),
    ensures
        receive_step(buf, p) == (buf, Reception::Ignored),
{
}

/// The reception of packets one after the other: the final buffer and what
/// each packet led to.
pub open spec fn receive_all(buf: Seq<Packet>, ps: Seq<Packet>) -> (Seq<Packet>, Seq<Reception>)
    decreases ps.len(),
{
    if ps.len() == 0 {
        (buf, Seq::empty())
    } else {
        let (b, rs) = receive_all(buf, ps.drop_last());
        let (b2, r) = receive_step(b, ps.last());
        (b2, rs.push(r))
    }
}

/// The reception of an origin is ready for a message starting at `seq_num`:
/// nothing received and the message starts at 0, or only the last packet of
/// the previous message kept, just before `seq_num`.
pub open spec fn ready_for(buf: Seq<Packet>, seq_num: int) -> bool {
    ||| buf.len() == 0 && seq_num == 0
    ||| buf.len() == 1 && is_last_packet(buf[0]) && buf[0].header.seq_num + 1 == seq_num
}

proof fn lemma_prefix_buffered(buf: Seq<Packet>, ps: Seq<Packet>, k: int)
    requires
        0 <= k <= ps.len() - 1,
        forall|i: int| 0 <= i < ps.len() ==> (#[trigger] ps[i]).header.seq_num == ps[0].header.seq_num + i
            && is_last_packet(ps[i]) == (i == ps.len() - 1),
        ready_for(buf, ps[0].header.seq_num as int),
    ensures
        receive_all(buf, ps.subrange(0, k)).0 == buf + ps.subrange(0, k),
        receive_all(buf, ps.subrange(0, k)).1.len() == k,
        forall|i: int| 0 <= i < k ==> (#[trigger] receive_all(buf, ps.subrange(0, k)).1[i]) is Buffered,
    decreases k,
{
    if k == 0 {
        assert(ps.subrange(0, 0) =~= Seq::<Packet>::empty());
        assert(buf + ps.subrange(0, 0) =~= buf);
    } else {
        lemma_prefix_buffered(buf, ps, k - 1);
        let pre = ps.subrange(0, k - 1);
        assert(ps.subrange(0, k).drop_last() =~= pre);
        assert(ps.subrange(0, k).last() == ps[k - 1]);
        let b = buf + pre;
        if k - 1 > 0 {
            assert(b.last() == ps[k - 2]);
        }
        assert(expected_seq(b) == ps[k - 1].header.seq_num);
        assert(b.push(ps[k - 1]) =~= buf + ps.subrange(0, k));
        let rs = receive_all(buf, pre).1;
        assert forall|i: int| 0 <= i < k implies (#[trigger] receive_all(buf, ps.subrange(0, k)).1[i]) is Buffered by {
            if i < k - 1 {
                assert(receive_all(buf, ps.subrange(0, k)).1[i] == rs[i]);
            }
        }
    }
}

/// Law: the packets of a message, handed in order with consecutive numbers
/// and only the final one marked last, to a reception ready for it (nothing
/// received and the message starts at 0, or only the last packet of the
/// previous message kept, just before it), are buffered one by one, and the
/// final one delivers exactly their data, numbered by the first of them.
pub proof fn lemma_message_delivered(buf: Seq<Packet>, ps: Seq<Packet>)
    requires
        ps.len() > 0,
        forall|i: int| 0 <= i < ps.len() ==> (#[trigger] ps[i]).header.seq_num == ps[0].header.seq_num + i
            && is_last_packet(ps[i]) == (i == ps.len() - 1),
        ready_for(buf, ps[0].header.seq_num as int),
    ensures
        receive_all(buf, ps).0 == seq![ps.last()],
        receive_all(buf, ps).1.len() == ps.len(),
        forall|i: int| 0 <= i < ps.len() - 1 ==> (#[trigger] receive_all(buf, ps).1[i]) is Buffered,
        receive_all(buf, ps).1.last() == (Reception::Delivered {
            message: concat_data(ps),
            origin: ps.last().header.origin,
            seq_num: ps[0].header.seq_num,
        }),
{
    let n = ps.len() as int;
    lemma_prefix_buffered(buf, ps, n - 1);
    let pre = ps.subrange(0, n - 1);
    assert(ps.drop_last() =~= pre);
    let b = buf + pre;
    if n - 1 > 0 {
        assert(b.last() == ps[n - 2]);
    }
    assert(expected_seq(b) == ps[n - 1].header.seq_num);
    assert(trimmed(b) =~= pre) by {
        if buf.len() == 1 {
            assert(b.drop_first() =~= pre);
        } else if n - 1 > 0 {
            assert(b[0] == ps[0]);
        }
    }
    if n - 1 > 0 {
        assert(trimmed(b)[0] == ps[0]);
    }
    let rs = receive_all(buf, pre).1;
    assert forall|i: int| 0 <= i < n - 1 implies (#[trigger] receive_all(buf, ps).1[i]) is Buffered by {
        assert(receive_all(buf, ps).1[i] == rs[i]);
    }
}

/// The reception can take the packet: the number expected after the buffer
/// does not overflow.
pub open spec fn receivable(buf: Seq<Packet>, p: Packet) -> bool {
    buf.len() > 0 ==> buf.last().header.seq_num < u32::MAX
}

/// What the reception of a data packet leads to, as the listener acts on it.
pub enum DataOutcome {
    Ignored,
    Duplicate,
    Buffered,
    Delivered { message: Vec<u8>, origin: SocketAddr, seq_num: u32 },
}

impl DataOutcome {
    pub open spec fn view(&self) -> Reception {
        match self {
            DataOutcome::Ignored => Reception::Ignored,
            DataOutcome::Duplicate => Reception::Duplicate,
            DataOutcome::Buffered => Reception::Buffered,
            DataOutcome::Delivered { message, origin, seq_num } => Reception::Delivered {
                message: message@,
                origin: *origin,
                seq_num: *seq_num,
            },
        }
    }
}

/// What to do with a complete broadcast message.
#[derive(Clone, Copy, Debug, PartialEq, Eq, Structural)]
pub struct DeliveryPlan {
    /// Hand the message to everyone waiting for a broadcast to come back.
    pub warn_waiters: bool,
    /// Gossip the message on, keeping its origin and sequence number.
    pub gossip: bool,
    /// Broadcast the message anew (the leader of AB, for a request it received).
    pub rebroadcast: bool,
    /// Deliver the message to the user.
    pub deliver: bool,
}

/// The standing data of the single-object variant.
pub struct ReliableCommunication {
    pub host: Node,
    pub group: Vec<Node>,
    pub leader: usize,
    pub broadcast: Broadcast,
    pub timeout: u64,
    pub message_timeout: u64,
    pub broadcast_timeout: u64,
    pub gossip_rate: usize,
    pub w_size: usize,
    pub dst_seq_num_cnt: DestCounters,
}

/// A message to send: destination, origin, first sequence number, gossip flag.
pub struct Planned {
    pub dst_addr: SocketAddr,
    pub origin: SocketAddr,
    pub seq_num: u32,
    pub is_gossip: bool,
}

/// The packets of a message cut as `m` says.
pub open spec fn is_planned(ps: Seq<Packet>, src: SocketAddr, m: Planned, data: Seq<u8>) -> bool {
    &&& ps.len() == chunk_count(data.len())
    &&& forall|i: int|
        0 <= i < ps.len() ==> is_message_packet(
            #[trigger] ps[i],
            src,
            m.dst_addr,
            m.origin,
            data,
            m.seq_num,
            m.is_gossip,
            i,
        )
}

/// The counters after a message of `count` packets to `a`: the counter of
/// `a` moves past them.
pub open spec fn advance(ctrs: spec_fn(SocketAddr) -> u32, a: SocketAddr, count: nat) -> spec_fn(SocketAddr) -> u32 {
    |x: SocketAddr| if x == a { (ctrs(x) + count) as u32 } else { ctrs(x) }
}

/// The messages of a broadcast to the members of `g` in order, each counted
/// on the counters; only those to the members in `keep` are sent. Returns the
/// kept messages, the counters after all of them, and whether every number
/// stayed within `u32`.
pub open spec fn cast_plan(
    ctrs: spec_fn(SocketAddr) -> u32,
    g: Seq<Node>,
    keep: Seq<Node>,
    host: SocketAddr,
    origin: Option<SocketAddr>,
    start: Option<u32>,
    count: nat,
    is_gossip: bool,
) -> (Seq<Planned>, spec_fn(SocketAddr) -> u32, bool)
    decreases g.len(),
{
    if g.len() == 0 {
        (Seq::empty(), ctrs, true)
    } else {
        let (ms, c, ok) = cast_plan(ctrs, g.drop_last(), keep, host, origin, start, count, is_gossip);
        let a = g.last().addr;
        let seq = match start {
            Some(s) => s,
            None => c(a),
        };
        let m = Planned {
            dst_addr: a,
            origin: match origin {
                Some(o) => o,
                None => host,
            },
            seq_num: seq,
            is_gossip,
        };
        (
            if keep.contains(g.last()) { ms.push(m) } else { ms },
            advance(c, a, count),
            ok && seq + count <= u32::MAX + 1 && c(a) + count <= u32::MAX,
        )
    }
}

proof fn lemma_plan_prefix_ok(
    ctrs: spec_fn(SocketAddr) -> u32,
    g: Seq<Node>,
    keep: Seq<Node>,
    host: SocketAddr,
    origin: Option<SocketAddr>,
    start: Option<u32>,
    count: nat,
    is_gossip: bool,
    k: int,
)
    requires
        0 <= k <= g.len(),
        cast_plan(ctrs, g, keep, host, origin, start, count, is_gossip).2,
    ensures
        cast_plan(ctrs, g.subrange(0, k), keep, host, origin, start, count, is_gossip).2,
    decreases g.len() - k,
{
    if k < g.len() {
        assert(g.drop_last() =~= g.subrange(0, g.len() - 1));
        assert(g.drop_last().subrange(0, k) =~= g.subrange(0, k));
        lemma_plan_prefix_ok(ctrs, g.drop_last(), keep, host, origin, start, count, is_gossip, k);
    } else {
        assert(g.subrange(0, k) =~= g);
    }
}

/// When every member is kept, the plan sends one message to each member,
/// in the order of the group.
proof fn lemma_plan_keeps_all(
    ctrs: spec_fn(SocketAddr) -> u32,
    g: Seq<Node>,
    keep: Seq<Node>,
    host: SocketAddr,
    origin: Option<SocketAddr>,
    start: Option<u32>,
    count: nat,
    is_gossip: bool,
)
    requires
        forall|i: int| 0 <= i < g.len() ==> keep.contains(#[trigger] g[i]),
    ensures
        cast_plan(ctrs, g, keep, host, origin, start, count, is_gossip).0.len() == g.len(),
        forall|i: int|
            0 <= i < g.len() ==> (#[trigger] cast_plan(ctrs, g, keep, host, origin, start, count, is_gossip).0[i]).dst_addr
                == g[i].addr,
    decreases g.len(),
{
    if g.len() > 0 {
        assert forall|i: int| 0 <= i < g.drop_last().len() implies keep.contains(#[trigger] g.drop_last()[i]) by {
            assert(g.drop_last()[i] == g[i]);
        }
        lemma_plan_keeps_all(ctrs, g.drop_last(), keep, host, origin, start, count, is_gossip);
        assert(keep.contains(g[g.len() - 1]));
    }
}

/// Whether `v` holds the member `n`.
fn contains_node(v: &Vec<Node>, n: &Node) -> (res: bool)
    ensures
        res == v@.contains(*n),
{
    let mut i: usize = 0;
    while i < v.len()
        invariant
            i <= v@.len(),
            forall|j: int| 0 <= j < i ==> v@[j] != *n,
        decreases v@.len() - i,
    {
        if v[i] == *n {
            assert(v@[i as int] == *n);
            return true;
        }
        i = i + 1;
    }
    false
}

/// A copy of a byte vector.
fn copy_bytes(v: &Vec<u8>) -> (r: Vec<u8>)
    ensures
        r@ == v@,
{
    let r = v.clone();
    assert(r@ =~= v@);
    r
}

impl ReliableCommunication {
    /// The standing data for `host` in `group`; in AB the first member leads.
    pub fn new(
        host: Node,
        group: Vec<Node>,
        timeout: u64,
        message_timeout: u64,
        w_size: usize,
        gossip_rate: usize,
        broadcast: Broadcast,
        broadcast_timeout: u64,
    ) -> (res: ReliableCommunication)
        requires
            broadcast == Broadcast::AB ==> group@.len() > 0,
        ensures
            res.host == host,
            res.group@ == group@,
            res.leader == (if broadcast == Broadcast::AB { group@[0].agent_number } else { host.agent_number }),
            res.broadcast == broadcast,
            res.timeout == timeout,
            res.message_timeout == message_timeout,
            res.broadcast_timeout == broadcast_timeout,
            res.gossip_rate == gossip_rate,
            res.w_size == w_size,
            forall|a: SocketAddr| #[trigger] res.dst_seq_num_cnt.counter(a) == 0,
    {
        let leader = if broadcast == Broadcast::AB { group[0].agent_number } else { host.agent_number };
        ReliableCommunication {
            host,
            group,
            leader,
            broadcast,
            timeout,
            message_timeout,
            broadcast_timeout,
            gossip_rate,
            w_size,
            dst_seq_num_cnt: DestCounters::new(),
        }
    }

    /// Without a broadcast algorithm, a broadcast goes to the next member only.
    pub fn next_member(&self) -> (addr: SocketAddr)
        requires
            self.group@.len() > 0,
            self.host.agent_number < usize::MAX,
        ensures
            addr == self.group@[((self.host.agent_number + 1) % (self.group@.len() as int))].addr,
    {
        let idx = (self.host.agent_number + 1) % self.group.len();
        self.group[idx].addr
    }

    /// The gossip friends: the `gossip_rate` members after the host's number,
    /// wrapping around the group.
    pub fn get_friends(&self) -> (friends: Vec<Node>)
        requires
            self.group@.len() > 0,
            self.host.agent_number < usize::MAX,
            (self.host.agent_number + 1) % (self.group@.len() as int) + self.gossip_rate <= usize::MAX,
        ensures
            friends@ == ring_friends(
                self.group@,
                (self.host.agent_number + 1) % (self.group@.len() as int),
                self.gossip_rate as int,
            ),
    {
        let len = self.group.len();
        let start = (self.host.agent_number + 1) % len;
        let end = (start + self.gossip_rate) % len;
        let mut friends: Vec<Node> = Vec::new();
        if start < end {
            friends.extend_from_slice(vstd::slice::slice_subrange(self.group.as_slice(), start, end));
        } else {
            friends.extend_from_slice(vstd::slice::slice_subrange(self.group.as_slice(), start, len));
            friends.extend_from_slice(vstd::slice::slice_subrange(self.group.as_slice(), 0, end));
        }
        proof {
            assert(friends@ =~= ring_friends(
                self.group@,
                (self.host.agent_number + 1) % (self.group@.len() as int),
                self.gossip_rate as int,
            ));
        }
        friends
    }

    /// Cuts a message to `destination` into packets. They are numbered from
    /// `sq` when given, else from the destination's counter; the counter then
    /// moves past them, so that the next message to `destination` follows on.
    pub fn get_packets(
        &mut self,
        data: Vec<u8>,
        destination: SocketAddr,
        origin: Option<SocketAddr>,
        is_gossip: bool,
        sq: Option<u32>,
    ) -> (packets: Vec<Packet>)
        requires
            ({
                let start = match sq {
                    Some(s) => s,
                    None => old(self).dst_seq_num_cnt.counter(destination),
                };
                start + chunk_count(data@.len()) <= u32::MAX + 1
            }),
            old(self).dst_seq_num_cnt.counter(destination) + chunk_count(data@.len()) <= u32::MAX,
        ensures
            is_planned(
                packets@,
                old(self).host.addr,
                Planned {
                    dst_addr: destination,
                    origin: match origin {
                        Some(o) => o,
                        None => old(self).host.addr,
                    },
                    seq_num: match sq {
                        Some(s) => s,
                        None => old(self).dst_seq_num_cnt.counter(destination),
                    },
                    is_gossip,
                },
                data@,
            ),
            concat_data(packets@) == data@,
            forall|a: SocketAddr|
                #[trigger] final(self).dst_seq_num_cnt.counter(a) == (advance(
                    old(self).counters(),
                    destination,
                    chunk_count(data@.len()),
                ))(a),
            final(self).host == old(self).host,
            final(self).group@ == old(self).group@,
            final(self).leader == old(self).leader,
            final(self).broadcast == old(self).broadcast,
            final(self).gossip_rate == old(self).gossip_rate,
            final(self).w_size == old(self).w_size,
            final(self).timeout == old(self).timeout,
            final(self).message_timeout == old(self).message_timeout,
            final(self).broadcast_timeout == old(self).broadcast_timeout,
    {
        let start_seq = match sq {
            Some(s) => s,
            None => self.dst_seq_num_cnt.get(destination),
        };
        let src = self.host.addr;
        let from = match origin {
            Some(o) => o,
            None => src,
        };
        let packets = Packet::packets_from_message(src, destination, from, data, start_seq, is_gossip);
        let c = self.dst_seq_num_cnt.get(destination);
        self.dst_seq_num_cnt.put(destination, c + packets.len() as u32);
        packets
    }

    /// The counters as a function.
    pub open spec fn counters(&self) -> spec_fn(SocketAddr) -> u32 {
        |a: SocketAddr| self.dst_seq_num_cnt.counter(a)
    }

    /// A broadcast of `data` to every member in turn: each member's message is
    /// cut (and counted), and those to the members in `keep` are kept.
    fn cast(
        &mut self,
        data: &Vec<u8>,
        keep: &Vec<Node>,
        origin: Option<SocketAddr>,
        start: Option<u32>,
        is_gossip: bool,
    ) -> (messages: Vec<Vec<Packet>>)
        requires
            cast_plan(
                old(self).counters(),
                old(self).group@,
                keep@,
                old(self).host.addr,
                origin,
                start,
                chunk_count(data@.len()),
                is_gossip,
            ).2,
        ensures
            ({
                let plan = cast_plan(
                    old(self).counters(),
                    old(self).group@,
                    keep@,
                    old(self).host.addr,
                    origin,
                    start,
                    chunk_count(data@.len()),
                    is_gossip,
                );
                &&& messages@.len() == plan.0.len()
                &&& forall|i: int| 0 <= i < messages@.len() ==> is_planned(#[trigger] messages@[i]@, old(self).host.addr, plan.0[i], data@)
                &&& forall|a: SocketAddr| #[trigger] final(self).dst_seq_num_cnt.counter(a) == (plan.1)(a)
            }),
            final(self).host == old(self).host,
            final(self).group@ == old(self).group@,
            final(self).leader == old(self).leader,
            final(self).broadcast == old(self).broadcast,
            final(self).gossip_rate == old(self).gossip_rate,
    {
        let ghost count = chunk_count(data@.len());
        let ghost ctrs0 = old(self).counters();
        let ghost fr = keep@;
        let mut messages: Vec<Vec<Packet>> = Vec::new();
        proof {
            assert(old(self).group@.subrange(0, 0) =~= Seq::<Node>::empty());
        }
        let mut i: usize = 0;
        while i < self.group.len()
            invariant
                i <= self.group@.len(),
                self.host == old(self).host,
                self.group@ == old(self).group@,
                self.leader == old(self).leader,
                self.broadcast == old(self).broadcast,
                self.gossip_rate == old(self).gossip_rate,
                fr == keep@,
                count == chunk_count(data@.len()),
                ctrs0 == old(self).counters(),
                cast_plan(ctrs0, old(self).group@, fr, old(self).host.addr, origin, start, count, is_gossip).2,
                ({
                    let p = cast_plan(ctrs0, old(self).group@.subrange(0, i as int), fr, old(self).host.addr, origin, start, count, is_gossip);
                    &&& messages@.len() == p.0.len()
                    &&& forall|j: int| 0 <= j < messages@.len() ==> is_planned(#[trigger] messages@[j]@, old(self).host.addr, p.0[j], data@)
                    &&& forall|a: SocketAddr| #[trigger] self.dst_seq_num_cnt.counter(a) == (p.1)(a)
                }),
            decreases self.group@.len() - i,
        {
            let ghost g = old(self).group@;
            let ghost pre = g.subrange(0, i as int);
            let ghost cur = g.subrange(0, i + 1);
            let ghost p_pre = cast_plan(ctrs0, pre, fr, old(self).host.addr, origin, start, count, is_gossip);
            proof {
                assert(cur.drop_last() =~= pre);
                assert(cur.last() == g[i as int]);
                lemma_plan_prefix_ok(ctrs0, g, fr, old(self).host.addr, origin, start, count, is_gossip, i + 1);
            }
            let node = self.group[i];
            proof {
                assert(self.dst_seq_num_cnt.counter(node.addr) == p_pre.1(node.addr));
            }
            let packets = self.get_packets(copy_bytes(data), node.addr, origin, is_gossip, start);
            proof {
                assert forall|a: SocketAddr| #[trigger] self.dst_seq_num_cnt.counter(a) == (advance(p_pre.1, node.addr, count))(a) by {}
            }
            if contains_node(keep, &node) {
                messages.push(packets);
            }
            i = i + 1;
        }
        proof {
            assert(old(self).group@.subrange(0, old(self).group@.len() as int) =~= old(self).group@);
        }
        messages
    }

    /// The messages that a request generates, each cut into packets.
    pub fn handle_request(&mut self, request: &SendRequest) -> (messages: Vec<Vec<Packet>>)
        requires
            !request.is_broadcast ==> request.destination_address is Some
                && old(self).dst_seq_num_cnt.counter(request.destination_address.unwrap())
                + chunk_count(request.data@.len()) <= u32::MAX,
            request.is_broadcast && old(self).broadcast == Broadcast::BEB ==> cast_plan(
                old(self).counters(),
                old(self).group@,
                old(self).group@,
                old(self).host.addr,
                None,
                None,
                chunk_count(request.data@.len()),
                false,
            ).2,
            request.is_broadcast && old(self).broadcast == Broadcast::URB ==> {
                &&& old(self).group@.len() > 0
                &&& old(self).host.agent_number < usize::MAX
                &&& (old(self).host.agent_number + 1) % (old(self).group@.len() as int) + old(self).gossip_rate <= usize::MAX
                &&& cast_plan(
                    old(self).counters(),
                    old(self).group@,
                    ring_friends(
                        old(self).group@,
                        (old(self).host.agent_number + 1) % (old(self).group@.len() as int),
                        old(self).gossip_rate as int,
                    ),
                    old(self).host.addr,
                    request.origin_address,
                    request.start_sequence_number,
                    chunk_count(request.data@.len()),
                    true,
                ).2
            },
            request.is_broadcast && old(self).broadcast == Broadcast::AB ==> {
                let l = old(self).group@[old(self).leader as int].addr;
                let start = match request.start_sequence_number {
                    Some(s) => s,
                    None => old(self).dst_seq_num_cnt.counter(l),
                };
                &&& old(self).leader < old(self).group@.len()
                &&& start + chunk_count(request.data@.len()) <= u32::MAX + 1
                &&& old(self).dst_seq_num_cnt.counter(l) + chunk_count(request.data@.len()) <= u32::MAX
            },
        ensures
            final(self).host == old(self).host,
            final(self).group@ == old(self).group@,
            final(self).leader == old(self).leader,
            final(self).broadcast == old(self).broadcast,
            final(self).gossip_rate == old(self).gossip_rate,
            !request.is_broadcast ==> {
                let d = request.destination_address.unwrap();
                &&& messages@.len() == 1
                &&& is_planned(messages@[0]@, old(self).host.addr, Planned { dst_addr: d, origin: old(self).host.addr, seq_num: old(self).dst_seq_num_cnt.counter(d), is_gossip: false }, request.data@)
                &&& forall|a: SocketAddr| #[trigger] final(self).dst_seq_num_cnt.counter(a) == (advance(old(self).counters(), d, chunk_count(request.data@.len())))(a)
            },
            request.is_broadcast && old(self).broadcast == Broadcast::NONE ==> messages@.len() == 0
                && forall|a: SocketAddr| #[trigger] final(self).dst_seq_num_cnt.counter(a) == old(self).dst_seq_num_cnt.counter(a),
            request.is_broadcast && old(self).broadcast == Broadcast::BEB ==> {
                let plan = cast_plan(
                    old(self).counters(),
                    old(self).group@,
                    old(self).group@,
                    old(self).host.addr,
                    None,
                    None,
                    chunk_count(request.data@.len()),
                    false,
                );
                &&& messages@.len() == old(self).group@.len()
                &&& forall|i: int| 0 <= i < messages@.len() ==> is_planned(#[trigger] messages@[i]@, old(self).host.addr, plan.0[i], request.data@)
                &&& forall|i: int| 0 <= i < messages@.len() ==> (#[trigger] plan.0[i]).dst_addr == old(self).group@[i].addr
                &&& forall|a: SocketAddr| #[trigger] final(self).dst_seq_num_cnt.counter(a) == (plan.1)(a)
            },
            request.is_broadcast && old(self).broadcast == Broadcast::URB ==> {
                let plan = cast_plan(
                    old(self).counters(),
                    old(self).group@,
                    ring_friends(
                        old(self).group@,
                        (old(self).host.agent_number + 1) % (old(self).group@.len() as int),
                        old(self).gossip_rate as int,
                    ),
                    old(self).host.addr,
                    request.origin_address,
                    request.start_sequence_number,
                    chunk_count(request.data@.len()),
                    true,
                );
                &&& messages@.len() == plan.0.len()
                &&& forall|i: int| 0 <= i < messages@.len() ==> is_planned(#[trigger] messages@[i]@, old(self).host.addr, plan.0[i], request.data@)
                &&& forall|a: SocketAddr| #[trigger] final(self).dst_seq_num_cnt.counter(a) == (plan.1)(a)
            },
            request.is_broadcast && old(self).broadcast == Broadcast::AB ==> {
                let l = old(self).group@[old(self).leader as int].addr;
                &&& messages@.len() == 1
                &&& is_planned(messages@[0]@, old(self).host.addr, Planned {
                    dst_addr: l,
                    origin: match request.origin_address { Some(o) => o, None => old(self).host.addr },
                    seq_num: match request.start_sequence_number { Some(s) => s, None => old(self).dst_seq_num_cnt.counter(l) },
                    is_gossip: true,
                }, request.data@)
                &&& forall|a: SocketAddr| #[trigger] final(self).dst_seq_num_cnt.counter(a) == (advance(old(self).counters(), l, chunk_count(request.data@.len())))(a)
            },
    {
        let mut messages: Vec<Vec<Packet>> = Vec::new();
        if request.is_broadcast {
            match self.broadcast {
                Broadcast::NONE => {},
                Broadcast::BEB => {
                    let everyone = self.group.clone();
                    proof {
                        assert(everyone@ =~= old(self).group@);
                        assert forall|i: int| 0 <= i < everyone@.len() implies everyone@.contains(#[trigger] everyone@[i]) by {}
                        lemma_plan_keeps_all(
                            old(self).counters(),
                            old(self).group@,
                            everyone@,
                            old(self).host.addr,
                            None,
                            None,
                            chunk_count(request.data@.len()),
                            false,
                        );
                    }
                    messages = self.cast(&request.data, &everyone, None, None, false);
                },
                Broadcast::URB => {
                    let friends = self.get_friends();
                    messages = self.cast(
                        &request.data,
                        &friends,
                        request.origin_address,
                        request.start_sequence_number,
                        true,
                    );
                },
                Broadcast::AB => {
                    let leader = self.group[self.leader].addr;
                    let packets = self.get_packets(copy_bytes(&request.data), leader, request.origin_address, true, request.start_sequence_number);
                    messages.push(packets);
                },
            }
        } else {
            let destination = match request.destination_address {
                Some(d) => d,
                None => {
                    return messages;
                },
            };
            let packets = self.get_packets(copy_bytes(&request.data), destination, None, false, None);
            messages.push(packets);
        }
        messages
    }

    /// The buffered packets of a message and its last packet, merged; a
    /// remnant of the previous message at the front is dropped first. The
    /// buffer is left empty. Returns the message, its origin and the sequence
    /// number of its first packet (the last one's, for a single packet).
    pub fn receive_last_packet(packets: &mut Vec<Packet>, packet: &Packet) -> (res: (Vec<u8>, SocketAddr, u32))
        ensures
            final(packets)@ == Seq::<Packet>::empty(),
            res.0@ == concat_data(trimmed(old(packets)@)) + packet.data@,
            res.1 == packet.header.origin,
            res.2 == message_start(old(packets)@, *packet),
            old(packets)@.len() > 0 && old(packets)@[0].header.flags.value & LST != 0 ==> res.0@ == concat_data(
                old(packets)@.drop_first(),
            ) + packet.data@,
            !(old(packets)@.len() > 0 && old(packets)@[0].header.flags.value & LST != 0) ==> res.0@
                == concat_data(old(packets)@) + packet.data@,
    {
        let mut message: Vec<u8> = Vec::new();
        if packets.len() > 0 && packets[0].header.is_last() {
            packets.remove(0);
        }
        assert(packets@ == trimmed(old(packets)@));
        let sequence_number = if packets.len() > 0 {
            packets[0].header.seq_num
        } else {
            packet.header.seq_num
        };
        let mut i: usize = 0;
        while i < packets.len()
            invariant
                i <= packets@.len(),
                message@ == concat_data(packets@.subrange(0, i as int)),
            decreases packets@.len() - i,
        {
            message.extend_from_slice(packets[i].data.as_slice());
            proof {
                assert(packets@.subrange(0, i + 1).drop_last() =~= packets@.subrange(0, i as int));
            }
            i = i + 1;
        }
        assert(packets@.subrange(0, packets@.len() as int) =~= packets@);
        packets.clear();
        message.extend_from_slice(packet.data.as_slice());
        (message, packet.header.origin, sequence_number)
    }

    /// Handles a data packet against the buffer of its origin.
    pub fn handle_data(packets: &mut Vec<Packet>, packet: Packet) -> (res: DataOutcome)
        requires
            receivable(old(packets)@, packet),
        ensures
            final(packets)@ == receive_step(old(packets)@, packet).0,
            res.view() == receive_step(old(packets)@, packet).1,
            ahead_of(old(packets)@, packet) ==> res.view() is Ignored && final(packets)@ == old(packets)@,
    {
        let expected: u32 = if packets.len() == 0 {
            0
        } else {
            packets[packets.len() - 1].header.seq_num + 1
        };
        if packet.header.seq_num > expected {
            return DataOutcome::Ignored;
        }
        if packet.header.seq_num < expected {
            return DataOutcome::Duplicate;
        }
        if packet.header.is_last() {
            let (message, origin, seq_num) = ReliableCommunication::receive_last_packet(packets, &packet);
            packets.push(packet);
            proof {
                assert(packets@ =~= seq![packet]);
            }
            DataOutcome::Delivered { message, origin, seq_num }
        } else {
            packets.push(packet);
            DataOutcome::Buffered
        }
    }

    /// What to do with a complete message that must be gossiped (a broadcast),
    /// or with one that need not (it is delivered).
    pub fn plan_delivery(&self, must_gossip: bool, origin: SocketAddr) -> (plan: DeliveryPlan)
        ensures
            plan == (if !must_gossip {
                DeliveryPlan { warn_waiters: false, gossip: false, rebroadcast: false, deliver: true }
            } else {
                match self.broadcast {
                    Broadcast::NONE | Broadcast::BEB => DeliveryPlan {
                        warn_waiters: false,
                        gossip: false,
                        rebroadcast: false,
                        deliver: true,
                    },
                    Broadcast::URB => DeliveryPlan {
                        warn_waiters: false,
                        gossip: true,
                        rebroadcast: false,
                        deliver: true,
                    },
                    Broadcast::AB => if self.host.agent_number == self.leader && origin != self.host.addr {
                        DeliveryPlan { warn_waiters: true, gossip: false, rebroadcast: true, deliver: false }
                    } else {
                        DeliveryPlan { warn_waiters: true, gossip: true, rebroadcast: false, deliver: true }
                    },
                }
            }),
    {
        if !must_gossip {
            return DeliveryPlan { warn_waiters: false, gossip: false, rebroadcast: false, deliver: true };
        }
        match self.broadcast {
            Broadcast::NONE | Broadcast::BEB => DeliveryPlan {
                warn_waiters: false,
                gossip: false,
                rebroadcast: false,
                deliver: true,
            },
            Broadcast::URB => DeliveryPlan { warn_waiters: false, gossip: true, rebroadcast: false, deliver: true },
            Broadcast::AB => {
                if self.host.agent_number == self.leader && origin != self.host.addr {
                    DeliveryPlan { warn_waiters: true, gossip: false, rebroadcast: true, deliver: false }
                } else {
                    DeliveryPlan { warn_waiters: true, gossip: true, rebroadcast: false, deliver: true }
                }
            },
        }
    }
}

/// The next acknowledgement waited for, per destination.
pub struct AckExpectations {
    pub counters: DestCounters,
    pub known: Vec<SocketAddr>,
}

/// Whether an address is among the registered ones.
fn known_contains(v: &Vec<SocketAddr>, a: &SocketAddr) -> (res: bool)
    ensures
        res == v@.contains(*a),
{
    let mut i: usize = 0;
    while i < v.len()
        invariant
            i <= v@.len(),
            forall|j: int| 0 <= j < i ==> v@[j] != *a,
        decreases v@.len() - i,
    {
        if v[i] == *a {
            assert(v@[i as int] == *a);
            return true;
        }
        i = i + 1;
    }
    false
}

impl AckExpectations {
    /// The next sequence number expected from `a`, if the sender registered one.
    pub open spec fn expected(&self, a: SocketAddr) -> Option<u32> {
        if self.known@.contains(a) {
            Some(self.counters.counter(a))
        } else {
            None
        }
    }

    pub fn new() -> (res: AckExpectations)
        ensures
            forall|a: SocketAddr| #[trigger] res.expected(a) is None,
    {
        AckExpectations { counters: DestCounters::new(), known: Vec::new() }
    }

    /// Registers the first sequence number of a message to `a`; an address
    /// already registered keeps what it had.
    pub fn register(&mut self, a: SocketAddr, start_seq: u32)
        ensures
            final(self).expected(a) == (match old(self).expected(a) {
                Some(e) => Some(e),
                None => Some(start_seq),
            }),
            forall|k: SocketAddr| k != a ==> #[trigger] final(self).expected(k) == old(self).expected(k),
    {
        if !known_contains(&self.known, &a) {
            self.counters.put(a, start_seq);
            self.known.push(a);
            proof {
                assert(self.known@.last() == a);
                assert forall|k: SocketAddr| k != a implies #[trigger] self.known@.contains(k) == old(self).known@.contains(k) by {
                    if self.known@.contains(k) {
                        let j = choose|j: int| 0 <= j < self.known@.len() && self.known@[j] == k;
                        assert(j < old(self).known@.len());
                        assert(old(self).known@[j] == k);
                    }
                    if old(self).known@.contains(k) {
                        let j = choose|j: int| 0 <= j < old(self).known@.len() && old(self).known@[j] == k;
                        assert(self.known@[j] == k);
                    }
                }
                assert(self.known@.contains(a)) by {
                    assert(self.known@[self.known@.len() - 1] == a);
                }
            }
        }
    }

    /// An acknowledgement numbered `seq_num` from `a` is passed on when someone
    /// waits for `a` and it is not older than expected; `a` then expects `seq_num + 1`.
    pub fn on_ack(&mut self, a: SocketAddr, seq_num: u32) -> (forward: bool)
        requires
            (old(self).expected(a) matches Some(e) && seq_num >= e) ==> seq_num < u32::MAX,
        ensures
            forward == (old(self).expected(a) matches Some(e) && seq_num >= e),
            forward ==> final(self).expected(a) == Some((seq_num + 1) as u32),
            !forward ==> final(self).expected(a) == old(self).expected(a),
            forall|k: SocketAddr| k != a ==> #[trigger] final(self).expected(k) == old(self).expected(k),
    {
        if !known_contains(&self.known, &a) {
            return false;
        }
        let expected = self.counters.get(a);
        if seq_num < expected {
            return false;
        }
        self.counters.put(a, seq_num + 1);
        true
    }
}

} // verus!
