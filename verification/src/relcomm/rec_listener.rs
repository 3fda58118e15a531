//! The listener's decisions: which data packets to acknowledge, buffer and
//! deliver, which acknowledgements to pass to the sender, and what to do
//! with a delivered broadcast.
use vstd::prelude::*;
use crate::addr::SocketAddr;
use crate::relcomm::flags::{ACK, BRD, HB, LST};
use crate::relcomm::node::Node;
use crate::relcomm::header::{header_of_bytes, HEADER_SIZE};
use crate::relcomm::packet::{
    chunk_count, concat_data, is_message_packet, lemma_message_packets, lemma_packet_roundtrip, packet_bytes, Packet,
};
use crate::relcomm::rec_aux::{Broadcast, RecAux};

verus! {

/// Where the listener hands a packet that arrives.
#[derive(Clone, Copy, Debug, PartialEq, Eq, Structural)]
pub enum Route {
    /// A heartbeat: to failure detection.
    Heartbeat,
    /// An acknowledgement: to the sender, on the broadcast side or not.
    Ack { broadcast: bool },
    /// A piece of a message: to the buffer of its origin, on the broadcast side or not.
    Data { broadcast: bool },
}

/// The route of a packet with these flags: a heartbeat first, then an
/// acknowledgement, else data; the broadcast flag picks the side.
pub open spec fn route_of(flags: u8) -> Route {
    if flags & HB != 0 {
        Route::Heartbeat
    } else if flags & ACK != 0 {
        Route::Ack { broadcast: flags & BRD != 0 }
    } else {
        Route::Data { broadcast: flags & BRD != 0 }
    }
}

/// Sorts an arriving packet into heartbeat, acknowledgement or data.
pub fn route(packet: &Packet) -> (r: Route)
    ensures
        r == route_of(packet.header.flags.value),
{
    let broadcast = packet.header.is_brd();
    if packet.header.is_heartbeat() {
        Route::Heartbeat
    } else if packet.header.is_ack() {
        Route::Ack { broadcast }
    } else {
        Route::Data { broadcast }
    }
}

/// A data packet is the last one of its message.
pub open spec fn is_last_packet(p: Packet) -> bool {
    p.header.flags.value & LST != 0
}

/// The sequence number that the buffer of an origin expects next.
pub open spec fn expected_seq(buf: Seq<Packet>) -> int {
    if buf.len() == 0 {
        0
    } else {
        buf.last().header.seq_num + 1
    }
}

/// The buffer without the remnant of the previous message, if it starts with one.
pub open spec fn trimmed(buf: Seq<Packet>) -> Seq<Packet> {
    if buf.len() > 0 && is_last_packet(buf[0]) {
        buf.drop_first()
    } else {
        buf
    }
}

/// The sequence number a delivered message reports: that of its first packet.
pub open spec fn first_seq(buf: Seq<Packet>, p: Packet) -> u32 {
    if trimmed(buf).len() > 0 {
        trimmed(buf)[0].header.seq_num
    } else {
        p.header.seq_num
    }
}

/// What the reception of a data packet leads to.
pub enum Reception {
    /// Ahead of the expected sequence number: dropped without an acknowledgement.
    Ignored,
    /// Already received: acknowledged again, nothing else.
    Duplicate,
    /// The expected packet, not the last: acknowledged and buffered.
    Buffered,
    /// The expected last packet: acknowledged, and the whole message delivered.
    Delivered { message: Seq<u8>, origin: SocketAddr, seq_num: u32 },
}

/// One step of the reception of data from one origin: the new buffer and what happened.
pub open spec fn receive_step(buf: Seq<Packet>, p: Packet) -> (Seq<Packet>, Reception) {
    let expected = expected_seq(buf);
    if p.header.seq_num > expected {
        (buf, Reception::Ignored)
    } else if p.header.seq_num < expected {
        (buf, Reception::Duplicate)
    } else if !is_last_packet(p) {
        (buf.push(p), Reception::Buffered)
    } else {
        (
            seq![p],
            Reception::Delivered {
                message: concat_data(trimmed(buf)) + p.data@,
                origin: p.header.origin,
                seq_num: first_seq(buf, p),
            },
        )
    }
}

/// The packet is ahead of the buffer: past the successor of the last buffered
/// packet, or past 0 when nothing is buffered.
pub open spec fn ahead_of(buf: Seq<Packet>, p: Packet) -> bool {
    ||| buf.len() == 0 && p.header.seq_num > 0
    ||| buf.len() > 0 && p.header.seq_num > buf.last().header.seq_num + 1
}

/// Law: a data packet ahead of the buffer of its origin is dropped, whatever
/// the buffer holds: it is reported ignored and the buffer stays as it was,
/// so a lost packet is never skipped over.
pub proof fn lemma_ahead_ignored(buf: Seq<Packet>, p: Packet)
    requires
        ahead_of(buf, p),
    ensures
        receive_step(buf, p) == (buf, Reception::Ignored),
{
}

/// A buffer can take one more packet without its expected sequence number overflowing.
pub open spec fn buffer_ok(buf: Seq<Packet>) -> bool {
    buf.len() > 0 ==> buf.last().header.seq_num < u32::MAX
}

/// What the reception of a data packet leads to, as the listener acts on it.
pub enum DataOutcome {
    Ignored,
    Duplicate,
    Buffered,
    Delivered { message: Vec<u8>, origin: SocketAddr, seq_num: u32 },
}

impl DataOutcome {
    pub open spec fn view(&self) -> Reception {
        match self {
            DataOutcome::Ignored => Reception::Ignored,
            DataOutcome::Duplicate => Reception::Duplicate,
            DataOutcome::Buffered => Reception::Buffered,
            DataOutcome::Delivered { message, origin, seq_num } => Reception::Delivered {
                message: message@,
                origin: *origin,
                seq_num: *seq_num,
            },
        }
    }

    /// Every outcome but `Ignored` is answered with an acknowledgement.
    pub fn must_ack(&self) -> (res: bool)
        ensures
            res == !(self@ is Ignored),
    {
        match self {
            DataOutcome::Ignored => false,
            _ => true,
        }
    }
}

/// Merges the buffered packets of a message with its last packet.
/// A remnant of the previous message at the front of the buffer is dropped first;
/// the buffer is left empty. Returns the message, its origin and the sequence
/// number of its first packet.
pub fn receive_last_packet(packets: &mut Vec<Packet>, packet: &Packet) -> (res: (
    Vec<u8>,
    SocketAddr,
    u32,
))
    ensures
        final(packets)@ == Seq::<Packet>::empty(),
        res.0@ == concat_data(trimmed(old(packets)@)) + packet.data@,
        res.1 == packet.header.origin,
        res.2 == first_seq(old(packets)@, *packet),
        old(packets)@.len() > 0 && old(packets)@[0].header.flags.value & LST != 0 ==> res.0@ == concat_data(
            old(packets)@.drop_first(),
        ) + packet.data@,
        !(old(packets)@.len() > 0 && old(packets)@[0].header.flags.value & LST != 0) ==> res.0@ == concat_data(
            old(packets)@,
        ) + packet.data@,
{
    if packets.len() > 0 && packets[0].header.is_last() {
        packets.remove(0);
    }
    assert(packets@ == trimmed(old(packets)@));
    let mut message: Vec<u8> = Vec::new();
    let mut i: usize = 0;
    while i < packets.len()
        invariant
            i <= packets@.len(),
            message@ == concat_data(packets@.subrange(0, i as int)),
        decreases packets@.len() - i,
    {
        message.extend_from_slice(packets[i].data.as_slice());
        proof {
            assert(packets@.subrange(0, i + 1).drop_last() =~= packets@.subrange(0, i as int));
        }
        i = i + 1;
    }
    assert(packets@.subrange(0, packets@.len() as int) =~= packets@);
    message.extend_from_slice(packet.data.as_slice());
    let seq_num: u32 = if packets.len() > 0 {
        packets[0].header.seq_num
    } else {
        packet.header.seq_num
    };
    packets.clear();
    (message, packet.header.origin, seq_num)
}

/// Handles a data packet against the buffer of its origin.
pub fn handle_data(packets: &mut Vec<Packet>, packet: Packet) -> (res: DataOutcome)
    requires
        buffer_ok(old(packets)@),
    ensures
        final(packets)@ == receive_step(old(packets)@, packet).0,
        res@ == receive_step(old(packets)@, packet).1,
        ahead_of(old(packets)@, packet) ==> res@ is Ignored && final(packets)@ == old(packets)@,
{
    let expected: u32 = if packets.len() == 0 {
        0
    } else {
        packets[packets.len() - 1].header.seq_num + 1
    };
    if packet.header.seq_num > expected {
        return DataOutcome::Ignored;
    }
    if packet.header.seq_num < expected {
        return DataOutcome::Duplicate;
    }
    if packet.header.is_last() {
        let (message, origin, seq_num) = receive_last_packet(packets, &packet);
        packets.push(packet);
        proof {
            assert(packets@ =~= seq![packet]);
        }
        DataOutcome::Delivered { message, origin, seq_num }
    } else {
        packets.push(packet);
        DataOutcome::Buffered
    }
}

/// The buffer that the first entry of `origin` holds, or an empty one.
pub open spec fn buffer_of(entries: Seq<(SocketAddr, Vec<Packet>)>, origin: SocketAddr) -> Seq<Packet>
    decreases entries.len(),
{
    if entries.len() == 0 {
        Seq::empty()
    } else if entries[0].0 == origin {
        entries[0].1@
    } else {
        buffer_of(entries.drop_first(), origin)
    }
}

/// The index of the first entry of `origin`.
pub open spec fn entry_index(entries: Seq<(SocketAddr, Vec<Packet>)>, origin: SocketAddr) -> int
    decreases entries.len(),
{
    if entries.len() == 0 {
        -1
    } else if entries[0].0 == origin {
        0
    } else {
        let i = entry_index(entries.drop_first(), origin);
        if i < 0 {
            -1
        } else {
            i + 1
        }
    }
}

proof fn lemma_entry_index(entries: Seq<(SocketAddr, Vec<Packet>)>, origin: SocketAddr)
    ensures
        -1 <= entry_index(entries, origin) < entries.len(),
        entry_index(entries, origin) >= 0 ==> entries[entry_index(entries, origin)].0 == origin
            && buffer_of(entries, origin) == entries[entry_index(entries, origin)].1@,
        forall|j: int|
            0 <= j < entries.len() && (entry_index(entries, origin) < 0 || j < entry_index(
                entries,
                origin,
            )) ==> entries[j].0 != origin,
        entry_index(entries, origin) < 0 ==> buffer_of(entries, origin) == Seq::<Packet>::empty(),
    decreases entries.len(),
{
    if entries.len() > 0 && entries[0].0 != origin {
        lemma_entry_index(entries.drop_first(), origin);
        assert forall|j: int| 0 < j < entries.len() implies entries[j] == entries.drop_first()[j
            - 1] by {}
    }
}

/// Replacing the buffer of the first entry of a key changes what that key
/// finds and nothing else.
proof fn lemma_buffer_update(
    entries: Seq<(SocketAddr, Vec<Packet>)>,
    idx: int,
    v: Vec<Packet>,
    k: SocketAddr,
)
    requires
        0 <= idx < entries.len(),
        forall|j: int| 0 <= j < idx ==> entries[j].0 != entries[idx].0,
    ensures
        buffer_of(entries.update(idx, (entries[idx].0, v)), k) == if k == entries[idx].0 {
            v@
        } else {
            buffer_of(entries, k)
        },
    decreases entries.len(),
{
    let e2 = entries.update(idx, (entries[idx].0, v));
    if idx == 0 {
        assert(e2.drop_first() =~= entries.drop_first());
    } else {
        assert(e2[0] == entries[0]);
        assert(entries[0].0 != entries[idx].0);
        assert(e2.drop_first() =~= entries.drop_first().update(idx - 1, (entries[idx].0, v)));
        assert forall|j: int| 0 <= j < idx - 1 implies #[trigger] entries.drop_first()[j].0 != entries.drop_first()[idx - 1].0 by {
            assert(entries.drop_first()[j] == entries[j + 1]);
        }
        lemma_buffer_update(entries.drop_first(), idx - 1, v, k);
    }
}

/// Adding an entry at the end changes nothing for the keys found before it.
proof fn lemma_buffer_push(entries: Seq<(SocketAddr, Vec<Packet>)>, e: (SocketAddr, Vec<Packet>), k: SocketAddr)
    requires
        entry_index(entries, k) >= 0 || k != e.0,
    ensures
        buffer_of(entries.push(e), k) == buffer_of(entries, k),
    decreases entries.len(),
{
    if entries.len() == 0 {
        assert(entry_index(entries, k) == -1);
        assert(entries.push(e)[0] == e);
        assert(entries.push(e).drop_first() =~= Seq::<(SocketAddr, Vec<Packet>)>::empty());
        assert(buffer_of(entries.push(e).drop_first(), k) == Seq::<Packet>::empty());
        assert(buffer_of(entries.push(e), k) == Seq::<Packet>::empty());
    } else {
        assert(entries.push(e)[0] == entries[0]);
        assert(entries.push(e).drop_first() =~= entries.drop_first().push(e));
        if entries[0].0 != k {
            assert(entry_index(entries.drop_first(), k) >= 0 || k != e.0);
            lemma_buffer_push(entries.drop_first(), e, k);
        }
    }
}

/// The packets buffered per origin, each origin's in arrival order.
pub struct OriginBuffers {
    pub entries: Vec<(SocketAddr, Vec<Packet>)>,
}

impl OriginBuffers {
    /// The buffer of `origin`.
    pub open spec fn buffer(&self, origin: SocketAddr) -> Seq<Packet> {
        buffer_of(self.entries@, origin)
    }

    pub fn new() -> (res: OriginBuffers)
        ensures
            forall|o: SocketAddr| res.buffer(o) == Seq::<Packet>::empty(),
    {
        OriginBuffers { entries: Vec::new() }
    }

    fn find(&self, origin: SocketAddr) -> (idx: usize)
        ensures
            idx <= self.entries@.len(),
            forall|j: int| 0 <= j < idx ==> self.entries@[j].0 != origin,
            idx < self.entries@.len() ==> self.entries@[idx as int].0 == origin,
    {
        let mut idx: usize = 0;
        while idx < self.entries.len()
            invariant
                idx <= self.entries@.len(),
                forall|j: int| 0 <= j < idx ==> self.entries@[j].0 != origin,
            decreases self.entries@.len() - idx,
        {
            if self.entries[idx].0 == origin {
                return idx;
            }
            idx = idx + 1;
        }
        idx
    }

    /// Whether the buffer of `origin` can take one more packet without its
    /// expected sequence number overflowing.
    pub fn can_take(&self, origin: SocketAddr) -> (ok: bool)
        ensures
            ok == buffer_ok(self.buffer(origin)),
    {
        let idx = self.find(origin);
        proof {
            lemma_entry_index(self.entries@, origin);
        }
        if idx == self.entries.len() {
            proof {
                if entry_index(self.entries@, origin) >= 0 {
                    assert(self.entries@[entry_index(self.entries@, origin)].0 == origin);
                }
            }
            true
        } else {
            proof {
                assert(entry_index(self.entries@, origin) == idx) by {
                    if entry_index(self.entries@, origin) < idx {
                        assert(self.entries@[entry_index(self.entries@, origin)].0 == origin);
                    }
                }
            }
            let buf = &self.entries[idx].1;
            buf.len() == 0 || buf[buf.len() - 1].header.seq_num < u32::MAX
        }
    }

    /// Handles a data packet against the buffer of its origin; the buffers of
    /// the other origins stay as they were.
    pub fn handle_data(&mut self, packet: Packet) -> (res: DataOutcome)
        requires
            buffer_ok(old(self).buffer(packet.header.origin)),
        ensures
            final(self).buffer(packet.header.origin) == receive_step(
                old(self).buffer(packet.header.origin),
                packet,
            ).0,
            res@ == receive_step(old(self).buffer(packet.header.origin), packet).1,
            forall|o: SocketAddr|
                o != packet.header.origin ==> final(self).buffer(o) == old(self).buffer(o),
    {
        let origin = packet.header.origin;
        let idx = self.find(origin);
        proof {
            lemma_entry_index(self.entries@, origin);
        }
        if idx == self.entries.len() {
            let fresh: (SocketAddr, Vec<Packet>) = (origin, Vec::new());
            proof {
                assert forall|o: SocketAddr| o != origin implies buffer_of(self.entries@.push(fresh), o) == buffer_of(self.entries@, o) by {
                    lemma_buffer_push(self.entries@, fresh, o);
                }
                assert(entry_index(self.entries@, origin) < 0) by {
                    if entry_index(self.entries@, origin) >= 0 {
                        assert(self.entries@[entry_index(self.entries@, origin)].0 == origin);
                    }
                }
            }
            self.entries.push(fresh);
        }
        let ghost before = self.entries@;
        proof {
            assert(before[idx as int].0 == origin);
            lemma_entry_index(before, origin);
            assert(entry_index(before, origin) == idx) by {
                if entry_index(before, origin) < idx {
                    assert(before[entry_index(before, origin)].0 == origin);
                }
            }
        }
        let mut slot: (SocketAddr, Vec<Packet>) = (origin, Vec::new());
        self.entries.set_and_swap(idx, &mut slot);
        let mut buf = slot.1;
        let res = handle_data(&mut buf, packet);
        let ghost buf_view = buf;
        let mut back: (SocketAddr, Vec<Packet>) = (origin, buf);
        self.entries.set_and_swap(idx, &mut back);
        proof {
            assert(self.entries@ == before.update(idx as int, (origin, buf_view)));
            assert forall|o: SocketAddr| true implies buffer_of(self.entries@, o) == if o == origin {
                buf_view@
            } else {
                buffer_of(before, o)
            } by {
                lemma_buffer_update(before, idx as int, buf_view, o);
            }
        }
        res
    }
}

/// The next acknowledgement the sender waits for, per destination and origin.
#[derive(Clone, Copy, Debug, PartialEq, Eq, Structural)]
pub struct AckKey {
    pub dst_addr: SocketAddr,
    pub origin: SocketAddr,
}

/// The sequence number registered for the first entry of `key`.
pub open spec fn ack_lookup(entries: Seq<(AckKey, u32)>, key: AckKey) -> Option<u32>
    decreases entries.len(),
{
    if entries.len() == 0 {
        None
    } else if entries[0].0 == key {
        Some(entries[0].1)
    } else {
        ack_lookup(entries.drop_first(), key)
    }
}

proof fn lemma_ack_update(entries: Seq<(AckKey, u32)>, idx: int, v: u32, k: AckKey)
    requires
        0 <= idx < entries.len(),
        forall|j: int| 0 <= j < idx ==> entries[j].0 != entries[idx].0,
    ensures
        ack_lookup(entries.update(idx, (entries[idx].0, v)), k) == if k == entries[idx].0 {
            Some(v)
        } else {
            ack_lookup(entries, k)
        },
    decreases entries.len(),
{
    let e2 = entries.update(idx, (entries[idx].0, v));
    if idx == 0 {
        assert(e2.drop_first() =~= entries.drop_first());
    } else {
        assert(e2[0] == entries[0]);
        assert(entries[0].0 != entries[idx].0);
        assert(e2.drop_first() =~= entries.drop_first().update(idx - 1, (entries[idx].0, v)));
        assert forall|j: int| 0 <= j < idx - 1 implies #[trigger] entries.drop_first()[j].0 != entries.drop_first()[idx - 1].0 by {
            assert(entries.drop_first()[j] == entries[j + 1]);
        }
        lemma_ack_update(entries.drop_first(), idx - 1, v, k);
    }
}

proof fn lemma_ack_push(entries: Seq<(AckKey, u32)>, e: (AckKey, u32), k: AckKey)
    requires
        forall|j: int| 0 <= j < entries.len() ==> entries[j].0 != e.0,
    ensures
        ack_lookup(entries.push(e), k) == if k == e.0 {
            Some(e.1)
        } else {
            ack_lookup(entries, k)
        },
    decreases entries.len(),
{
    if entries.len() == 0 {
        assert(entries.push(e)[0] == e);
        assert(entries.push(e).drop_first() =~= Seq::<(AckKey, u32)>::empty());
        assert(ack_lookup(entries.push(e).drop_first(), k) is None);
    } else {
        assert(entries.push(e)[0] == entries[0]);
        assert(entries.push(e).drop_first() =~= entries.drop_first().push(e));
        if entries[0].0 != k {
            assert forall|j: int| 0 <= j < entries.drop_first().len() implies #[trigger] entries.drop_first()[j].0 != e.0 by {
                assert(entries.drop_first()[j] == entries[j + 1]);
            }
            lemma_ack_push(entries.drop_first(), e, k);
        }
    }
}

proof fn lemma_ack_absent(entries: Seq<(AckKey, u32)>, k: AckKey)
    requires
        forall|j: int| 0 <= j < entries.len() ==> entries[j].0 != k,
    ensures
        ack_lookup(entries, k) is None,
    decreases entries.len(),
{
    if entries.len() > 0 {
        assert forall|j: int| 0 <= j < entries.drop_first().len() implies #[trigger] entries.drop_first()[j].0 != k by {
            assert(entries.drop_first()[j] == entries[j + 1]);
        }
        lemma_ack_absent(entries.drop_first(), k);
    }
}

/// One acknowledgement for a key: with `before` expected, the one numbered
/// `seq` is passed on when someone waits and it is not older than expected;
/// the key then expects the number after it. Otherwise nothing changes.
pub open spec fn ack_step(before: Option<u32>, seq: u32, forward: bool, after: Option<u32>) -> bool {
    &&& forward == (before matches Some(e) && seq >= e)
    &&& forward ==> after == Some((seq + 1) as u32)
    &&& !forward ==> after == before
}

proof fn lemma_acks_prefix(states: Seq<Option<u32>>, seqs: Seq<u32>, fwd: Seq<bool>, start: u32, k: int)
    requires
        states.len() == seqs.len() + 1,
        fwd.len() == seqs.len(),
        states[0] == Some(start),
        forall|i: int| 0 <= i < seqs.len() ==> ack_step(states[i], #[trigger] seqs[i], fwd[i], states[i + 1]),
        forall|i: int| 0 <= i < seqs.len() && #[trigger] fwd[i] ==> seqs[i] < u32::MAX,
        0 <= k <= seqs.len(),
    ensures
        states[k] is Some,
        states[k].unwrap() >= start,
        forall|i: int| 0 <= i < k && #[trigger] fwd[i] ==> start <= seqs[i] < states[k].unwrap(),
    decreases k,
{
    if k > 0 {
        lemma_acks_prefix(states, seqs, fwd, start, k - 1);
        assert(ack_step(states[k - 1], seqs[k - 1], fwd[k - 1], states[k]));
        if fwd[k - 1] {
            assert(seqs[k - 1] < u32::MAX);
        }
    }
}

/// Law: once an acknowledgement numbered `s` is passed on for a key, the key
/// expects exactly `s + 1`: an acknowledgement numbered `s + 1` is passed on
/// next, and one numbered `s` or below is not.
pub proof fn lemma_next_ack_forwarded(
    before: Option<u32>,
    s: u32,
    after: Option<u32>,
    t: u32,
    forward: bool,
    after2: Option<u32>,
)
    requires
        ack_step(before, s, true, after),
        s < u32::MAX,
        ack_step(after, t, forward, after2),
    ensures
        after == Some((s + 1) as u32),
        t == s + 1 ==> forward,
        t <= s ==> !forward,
{
}

/// Law: between two registrations of a key, the acknowledgements passed on
/// for it carry strictly increasing sequence numbers, none below the
/// registered start.
pub proof fn lemma_forwarded_acks_rise(states: Seq<Option<u32>>, seqs: Seq<u32>, fwd: Seq<bool>, start: u32)
    requires
        states.len() == seqs.len() + 1,
        fwd.len() == seqs.len(),
        states[0] == Some(start),
        forall|i: int| 0 <= i < seqs.len() ==> ack_step(states[i], #[trigger] seqs[i], fwd[i], states[i + 1]),
        forall|i: int| 0 <= i < seqs.len() && #[trigger] fwd[i] ==> seqs[i] < u32::MAX,
    ensures
        forall|i: int| 0 <= i < seqs.len() && #[trigger] fwd[i] ==> seqs[i] >= start,
        forall|i: int, j: int| 0 <= i < j < seqs.len() && #[trigger] fwd[i] && #[trigger] fwd[j] ==> seqs[i] < seqs[j],
{
    lemma_acks_prefix(states, seqs, fwd, start, seqs.len() as int);
    assert forall|i: int, j: int| 0 <= i < j < seqs.len() && #[trigger] fwd[i] && #[trigger] fwd[j] implies seqs[i] < seqs[j] by {
        lemma_acks_prefix(states, seqs, fwd, start, j);
        assert(ack_step(states[j], seqs[j], fwd[j], states[j + 1]));
    }
}

/// The acknowledgements that the sender waits for.
pub struct ExpectedAcks {
    pub entries: Vec<(AckKey, u32)>,
}

impl ExpectedAcks {
    /// The next sequence number expected for `key`, if any.
    pub open spec fn expected(&self, key: AckKey) -> Option<u32> {
        ack_lookup(self.entries@, key)
    }

    pub fn new() -> (res: ExpectedAcks)
        ensures
            forall|k: AckKey| res.expected(k) is None,
    {
        ExpectedAcks { entries: Vec::new() }
    }

    fn find(&self, key: AckKey) -> (idx: usize)
        ensures
            idx <= self.entries@.len(),
            forall|j: int| 0 <= j < idx ==> self.entries@[j].0 != key,
            idx < self.entries@.len() ==> self.entries@[idx as int].0 == key,
    {
        let mut idx: usize = 0;
        while idx < self.entries.len()
            invariant
                idx <= self.entries@.len(),
                forall|j: int| 0 <= j < idx ==> self.entries@[j].0 != key,
            decreases self.entries@.len() - idx,
        {
            if self.entries[idx].0 == key {
                return idx;
            }
            idx = idx + 1;
        }
        idx
    }

    /// The next sequence number expected for `key`, if any.
    pub fn get(&self, key: AckKey) -> (res: Option<u32>)
        ensures
            res == self.expected(key),
    {
        let idx = self.find(key);
        if idx == self.entries.len() {
            proof {
                lemma_ack_absent(self.entries@, key);
            }
            None
        } else {
            proof {
                lemma_ack_update(self.entries@, idx as int, self.entries@[idx as int].1, key);
                assert(self.entries@.update(idx as int, (key, self.entries@[idx as int].1)) =~= self.entries@);
            }
            Some(self.entries[idx].1)
        }
    }

    /// Registers the first sequence number of a message that the sender starts
    /// sending; it replaces what was registered for the key.
    pub fn insert(&mut self, key: AckKey, start_seq: u32)
        ensures
            final(self).expected(key) == Some(start_seq),
            forall|k: AckKey| k != key ==> final(self).expected(k) == old(self).expected(k),
    {
        let idx = self.find(key);
        if idx < self.entries.len() {
            proof {
                assert forall|k: AckKey| true implies ack_lookup(self.entries@.update(idx as int, (key, start_seq)), k) == if k == key { Some(start_seq) } else { ack_lookup(self.entries@, k) } by {
                    lemma_ack_update(self.entries@, idx as int, start_seq, k);
                }
            }
            self.entries.set(idx, (key, start_seq));
        } else {
            proof {
                assert forall|k: AckKey| true implies ack_lookup(self.entries@.push((key, start_seq)), k) == if k == key { Some(start_seq) } else { ack_lookup(self.entries@, k) } by {
                    lemma_ack_push(self.entries@, (key, start_seq), k);
                }
            }
            self.entries.push((key, start_seq));
        }
    }

    /// Handles an acknowledgement with sequence number `seq_num` for `key`:
    /// it is passed on to the sender (`true`) when someone waits for that key
    /// and it is not older than expected; the key then expects `seq_num + 1`.
    pub fn on_ack(&mut self, key: AckKey, seq_num: u32) -> (forward: bool)
        requires
            (old(self).expected(key) matches Some(e) && seq_num >= e) ==> seq_num < u32::MAX,
        ensures
            ack_step(old(self).expected(key), seq_num, forward, final(self).expected(key)),
            forward == (old(self).expected(key) matches Some(e) && seq_num >= e),
            forward ==> final(self).expected(key) == Some((seq_num + 1) as u32),
            !forward ==> final(self).expected(key) == old(self).expected(key),
            forall|k: AckKey| k != key ==> final(self).expected(k) == old(self).expected(k),
    {
        let idx = self.find(key);
        if idx == self.entries.len() {
            proof {
                lemma_ack_absent(self.entries@, key);
            }
            return false;
        }
        proof {
            assert(ack_lookup(self.entries@, key) == Some(self.entries@[idx as int].1)) by {
                lemma_ack_update(self.entries@, idx as int, self.entries@[idx as int].1, key);
                assert(self.entries@.update(idx as int, (key, self.entries@[idx as int].1)) =~= self.entries@);
            }
        }
        let expected = self.entries[idx].1;
        if seq_num < expected {
            return false;
        }
        proof {
            assert forall|k: AckKey| true implies ack_lookup(self.entries@.update(idx as int, (key, (seq_num + 1) as u32)), k) == if k == key { Some((seq_num + 1) as u32) } else { ack_lookup(self.entries@, k) } by {
                lemma_ack_update(self.entries@, idx as int, (seq_num + 1) as u32, k);
            }
        }
        self.entries.set(idx, (key, seq_num + 1));
        true
    }
}

/// What to do with a broadcast message once it is complete.
#[derive(Clone, Copy, Debug, PartialEq, Eq, Structural)]
pub struct BroadcastPlan {
    /// Hand the message to everyone waiting for a broadcast to come back.
    pub warn_waiters: bool,
    /// Gossip the message to the friends, keeping its origin and sequence number.
    pub gossip: bool,
    /// Ask the sender to start a broadcast of the message (the leader's duty in AB).
    pub request_broadcast: bool,
    /// Deliver the message to the user.
    pub deliver: bool,
}

/// The listener's standing data: who it runs for and which broadcast algorithm is in use.
pub struct RecListener {
    pub host: Node,
    pub broadcast: Broadcast,
}

/// The priority of an address in the group: the group's size minus the index
/// of its first member with that address, or 0 when no member has it.
pub open spec fn priority_of(group: Seq<Node>, addr: SocketAddr) -> int
    decreases group.len(),
{
    if group.len() == 0 {
        0
    } else if group[0].addr == addr {
        group.len() as int
    } else {
        priority_of(group.drop_first(), addr)
    }
}

impl RecAux for RecListener {}

impl RecListener {
    pub fn new(host: Node, broadcast: Broadcast) -> (res: RecListener)
        ensures
            res.host == host,
            res.broadcast == broadcast,
    {
        RecListener { host, broadcast }
    }

    /// The priority of a member as a leader (the earlier in the group, the higher).
    pub fn get_leader_priority(&self, group: &Vec<Node>, node_address: &SocketAddr) -> (p: usize)
        ensures
            p == priority_of(group@, *node_address),
    {
        let mut i: usize = 0;
        assert(group@.subrange(0, group@.len() as int) =~= group@);
        while i < group.len()
            invariant
                i <= group@.len(),
                priority_of(group@, *node_address) == priority_of(
                    group@.subrange(i as int, group@.len() as int),
                    *node_address,
                ),
            decreases group@.len() - i,
        {
            let ghost rest = group@.subrange(i as int, group@.len() as int);
            if group[i].addr == *node_address {
                return group.len() - i;
            }
            assert(rest.drop_first() =~= group@.subrange(i + 1, group@.len() as int));
            i = i + 1;
        }
        0
    }

    /// In AB, whether a broadcast from `origin` is a request to this member to
    /// broadcast (the origin ranks below it: `false`, do not deliver) or a
    /// broadcast to pass on (`true`, gossip and deliver).
    pub fn atm_gossip(&self, group: &Vec<Node>, origin: &SocketAddr) -> (deliver: bool)
        ensures
            deliver == (priority_of(group@, *origin) >= priority_of(group@, self.host.addr)),
    {
        let origin_priority = self.get_leader_priority(group, origin);
        let own_priority = self.get_leader_priority(group, &self.host.addr);
        !(origin_priority < own_priority)
    }

    /// What to do with a complete message: data that is not a broadcast is
    /// delivered; a broadcast depends on the algorithm in use.
    pub fn plan_delivery(&self, group: &Vec<Node>, is_brd: bool, origin: &SocketAddr) -> (plan:
        BroadcastPlan)
        ensures
            !is_brd ==> plan == (BroadcastPlan {
                warn_waiters: false,
                gossip: false,
                request_broadcast: false,
                deliver: true,
            }),
            is_brd && self.broadcast == Broadcast::BEB ==> plan == (BroadcastPlan {
                warn_waiters: false,
                gossip: false,
                request_broadcast: false,
                deliver: true,
            }),
            is_brd && self.broadcast == Broadcast::URB ==> plan == (BroadcastPlan {
                warn_waiters: true,
                gossip: true,
                request_broadcast: false,
                deliver: true,
            }),
            is_brd && self.broadcast == Broadcast::AB ==> {
                let pass_on = priority_of(group@, *origin) >= priority_of(group@, self.host.addr);
                plan == (BroadcastPlan {
                    warn_waiters: true,
                    gossip: pass_on,
                    request_broadcast: !pass_on,
                    deliver: pass_on,
                })
            },
    {
        if !is_brd {
            return BroadcastPlan {
                warn_waiters: false,
                gossip: false,
                request_broadcast: false,
                deliver: true,
            };
        }
        match self.broadcast {
            Broadcast::BEB => BroadcastPlan {
                warn_waiters: false,
                gossip: false,
                request_broadcast: false,
                deliver: true,
            },
            Broadcast::URB => BroadcastPlan {
                warn_waiters: true,
                gossip: true,
                request_broadcast: false,
                deliver: true,
            },
            Broadcast::AB => {
                let pass_on = self.atm_gossip(group, origin);
                BroadcastPlan {
                    warn_waiters: true,
                    gossip: pass_on,
                    request_broadcast: !pass_on,
                    deliver: pass_on,
                }
            },
        }
    }
}

/// Hands the packets, in order, to the reception of one origin: the final
/// buffer and the outcome of each packet.
pub open spec fn receive_all(buf: Seq<Packet>, ps: Seq<Packet>) -> (Seq<Packet>, Seq<Reception>)
    decreases ps.len(),
{
    if ps.len() == 0 {
        (buf, Seq::empty())
    } else {
        let (b, rs) = receive_all(buf, ps.drop_last());
        let (b2, r) = receive_step(b, ps.last());
        (b2, rs.push(r))
    }
}

/// The reception of one origin is ready for a message starting at `seq_num`:
/// nothing received yet and the message starts at 0, or only the last packet
/// of the previous message kept, just before `seq_num`.
pub open spec fn ready_for(buf: Seq<Packet>, seq_num: u32) -> bool {
    ||| buf.len() == 0 && seq_num == 0
    ||| buf.len() == 1 && is_last_packet(buf[0]) && buf[0].header.seq_num + 1 == seq_num
}

/// The packets before the last one of a message are buffered one after the other.
proof fn lemma_prefix_buffered(buf: Seq<Packet>, ps: Seq<Packet>, seq_num: u32, k: int)
    requires
        0 <= k <= ps.len() - 1,
        forall|i: int| 0 <= i < ps.len() ==> (#[trigger] ps[i]).header.seq_num == seq_num + i
            && is_last_packet(ps[i]) == (i == ps.len() - 1),
        ready_for(buf, seq_num),
    ensures
        receive_all(buf, ps.subrange(0, k)).0 == buf + ps.subrange(0, k),
        receive_all(buf, ps.subrange(0, k)).1.len() == k,
        forall|i: int| 0 <= i < k ==> (#[trigger] receive_all(buf, ps.subrange(0, k)).1[i]) is Buffered,
    decreases k,
{
    if k == 0 {
        assert(ps.subrange(0, 0) =~= Seq::<Packet>::empty());
        assert(buf + ps.subrange(0, 0) =~= buf);
    } else {
        lemma_prefix_buffered(buf, ps, seq_num, k - 1);
        let pre = ps.subrange(0, k - 1);
        let cur = ps.subrange(0, k);
        assert(cur.drop_last() =~= pre);
        assert(cur.last() == ps[k - 1]);
        let b = buf + pre;
        assert(expected_seq(b) == seq_num + k - 1) by {
            if k > 1 {
                assert(b.last() == ps[k - 2]);
            }
        }
        assert(buf + cur =~= b.push(ps[k - 1]));
    }
}

/// Law: when the listener is handed, in order, the packets that a non-empty
/// message was cut into, it buffers every packet but the last and then
/// delivers exactly that message, from its origin and with the sequence number
/// of its first packet; only the last packet stays in the buffer.
pub proof fn lemma_message_delivered(
    buf: Seq<Packet>,
    ps: Seq<Packet>,
    src_addr: SocketAddr,
    dst_addr: SocketAddr,
    origin: SocketAddr,
    data: Seq<u8>,
    seq_num: u32,
    is_gossip: bool,
)
    requires
        data.len() > 0,
        seq_num + chunk_count(data.len()) <= u32::MAX + 1,
        ps.len() == chunk_count(data.len()),
        forall|i: int|
            0 <= i < ps.len() ==> is_message_packet(
                #[trigger] ps[i],
                src_addr,
                dst_addr,
                origin,
                data,
                seq_num,
                is_gossip,
                i,
            ),
        concat_data(ps) == data,
        ready_for(buf, seq_num),
    ensures
        receive_all(buf, ps).0 == seq![ps.last()],
        forall|i: int| 0 <= i < ps.len() - 1 ==> receive_all(buf, ps).1[i] is Buffered,
        receive_all(buf, ps).1.len() == ps.len(),
        receive_all(buf, ps).1.last() == (Reception::Delivered {
            message: data,
            origin,
            seq_num,
        }),
{
    let n = ps.len() as int;
    assert(n > 0);
    assert forall|i: int| 0 <= i < n implies (#[trigger] ps[i]).header.seq_num == seq_num + i
        && is_last_packet(ps[i]) == (i == n - 1) && ps[i].header.origin == origin by {
        lemma_message_packets(ps[i], src_addr, dst_addr, origin, data, seq_num, is_gossip, i);
    }
    lemma_prefix_buffered(buf, ps, seq_num, n - 1);
    // The last packet delivers the message.
    let pre = ps.subrange(0, n - 1);
    assert(ps.subrange(0, n).drop_last() =~= pre);
    assert(ps.subrange(0, n) =~= ps);
    let b = buf + pre;
    assert(expected_seq(b) == seq_num + n - 1) by {
        if n > 1 {
            assert(b.last() == ps[n - 2]);
        }
    }
    assert(trimmed(b) =~= pre) by {
        if buf.len() == 1 {
            assert(b.drop_first() =~= pre);
        } else if n > 1 {
            assert(b[0] == ps[0]);
        }
    }
    assert(first_seq(b, ps[n - 1]) == seq_num) by {
        if n > 1 {
            assert(trimmed(b)[0] == ps[0]);
        }
    }
    assert(ps.drop_last() =~= pre);
    assert(concat_data(pre) + ps.last().data@ == data);
}

/// Law: once a message is delivered, any of its packets that arrives again is
/// only acknowledged, never delivered a second time.
pub proof fn lemma_no_redelivery(buf: Seq<Packet>, p: Packet)
    requires
        buf.len() > 0,
        p.header.seq_num <= buf.last().header.seq_num,
    ensures
        receive_step(buf, p).1 is Duplicate,
        receive_step(buf, p).0 == buf,
{
}

/// The packet read back from a datagram: the header from its first bytes, the
/// data from the rest.
pub open spec fn read_back(bytes: Seq<u8>) -> (Seq<u8>, Seq<u8>) {
    (bytes.subrange(0, HEADER_SIZE as int), bytes.subrange(HEADER_SIZE as int, bytes.len() as int))
}

proof fn lemma_concat_same_data(ps: Seq<Packet>, qs: Seq<Packet>)
    requires
        ps.len() == qs.len(),
        forall|i: int| 0 <= i < ps.len() ==> (#[trigger] qs[i]).data@ == ps[i].data@,
    ensures
        concat_data(qs) == concat_data(ps),
    decreases ps.len(),
{
    if ps.len() > 0 {
        assert forall|i: int| 0 <= i < ps.drop_last().len() implies (#[trigger] qs.drop_last()[i]).data@
            == ps.drop_last()[i].data@ by {
            assert(qs.drop_last()[i] == qs[i]);
            assert(ps.drop_last()[i] == ps[i]);
        }
        lemma_concat_same_data(ps.drop_last(), qs.drop_last());
    }
}

/// A packet read back from its wire form has its header and its data.
proof fn lemma_read_back_packet(p: Packet, q: Packet)
    requires
        p.header.is_v4(),
        q.header == header_of_bytes(read_back(packet_bytes(p)).0),
        q.data@ == read_back(packet_bytes(p)).1,
    ensures
        q.header == p.header,
        q.data@ == p.data@,
{
    let b = packet_bytes(p);
    crate::relcomm::header::lemma_header_roundtrip(p.header);
    assert(b.subrange(0, b.len() as int) =~= b);
    lemma_packet_roundtrip(p, b, b.len() as int);
}

/// Law: a message cut into packets, each sent as its wire form and read back
/// at the other end, is delivered whole: the listener buffers every packet but
/// the last and then delivers exactly the message, from its origin and with the
/// sequence number of its first packet (the addresses IPv4).
pub proof fn lemma_sent_message_delivered(
    buf: Seq<Packet>,
    ps: Seq<Packet>,
    qs: Seq<Packet>,
    src_addr: SocketAddr,
    dst_addr: SocketAddr,
    origin: SocketAddr,
    data: Seq<u8>,
    seq_num: u32,
    is_gossip: bool,
)
    requires
        data.len() > 0,
        src_addr.is_v4() && dst_addr.is_v4() && origin.is_v4(),
        seq_num + chunk_count(data.len()) <= u32::MAX + 1,
        ps.len() == chunk_count(data.len()),
        forall|i: int|
            0 <= i < ps.len() ==> is_message_packet(
                #[trigger] ps[i],
                src_addr,
                dst_addr,
                origin,
                data,
                seq_num,
                is_gossip,
                i,
            ),
        concat_data(ps) == data,
        qs.len() == ps.len(),
        forall|i: int|
            0 <= i < qs.len() ==> (#[trigger] qs[i]).header == header_of_bytes(read_back(packet_bytes(ps[i])).0)
                && qs[i].data@ == read_back(packet_bytes(ps[i])).1,
        ready_for(buf, seq_num),
    ensures
        receive_all(buf, qs).0 == seq![qs.last()],
        forall|i: int| 0 <= i < qs.len() - 1 ==> receive_all(buf, qs).1[i] is Buffered,
        receive_all(buf, qs).1.len() == qs.len(),
        receive_all(buf, qs).1.last() == (Reception::Delivered { message: data, origin, seq_num }),
{
    assert forall|i: int| 0 <= i < qs.len() implies (#[trigger] qs[i]).header == ps[i].header && qs[i].data@
        == ps[i].data@ by {
        assert(is_message_packet(ps[i], src_addr, dst_addr, origin, data, seq_num, is_gossip, i));
        assert(ps[i].header.src_addr == src_addr && ps[i].header.dst_addr == dst_addr && ps[i].header.origin == origin);
        lemma_read_back_packet(ps[i], qs[i]);
    }
    assert forall|i: int| 0 <= i < qs.len() implies is_message_packet(
        #[trigger] qs[i],
        src_addr,
        dst_addr,
        origin,
        data,
        seq_num,
        is_gossip,
        i,
    ) by {
        assert(is_message_packet(ps[i], src_addr, dst_addr, origin, data, seq_num, is_gossip, i));
        assert(qs[i].header == ps[i].header && qs[i].data@ == ps[i].data@);
    }
    lemma_concat_same_data(ps, qs);
    lemma_message_delivered(buf, qs, src_addr, dst_addr, origin, data, seq_num, is_gossip);
}

} // verus!
