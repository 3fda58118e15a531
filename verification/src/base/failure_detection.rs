//! Failure detection by heartbeat timestamps: a member silent for longer
//! than the timeout counts as dead. Times are milliseconds on a monotonic
//! clock, handed in by the caller.
use vstd::prelude::*;
use crate::addr::SocketAddr;
use crate::base::config::TIMEOUT;

verus! {

/// What is known of one member.
#[derive(Clone, Copy, Debug, PartialEq, Eq, Structural)]
pub struct Process {
    pub addr: SocketAddr,
    /// When its last heartbeat arrived.
    pub last_heartbeat: u64,
    pub is_alive: bool,
}

/// The record of `addr` among the first entries.
pub open spec fn process_lookup(ps: Seq<Process>, addr: SocketAddr) -> Option<Process>
    decreases ps.len(),
{
    if ps.len() == 0 {
        None
    } else if ps[0].addr == addr {
        Some(ps[0])
    } else {
        process_lookup(ps.drop_first(), addr)
    }
}

/// How long ago `then` was, at `now` (never negative).
pub open spec fn elapsed(then: u64, now: u64) -> int {
    if now >= then { now - then } else { 0 }
}

proof fn lemma_lookup_index(ps: Seq<Process>, addr: SocketAddr, i: int)
    requires
        0 <= i < ps.len(),
        ps[i].addr == addr,
        forall|j: int| 0 <= j < i ==> ps[j].addr != addr,
    ensures
        process_lookup(ps, addr) == Some(ps[i]),
    decreases ps.len(),
{
    if i > 0 {
        assert forall|j: int| 0 <= j < i - 1 implies #[trigger] ps.drop_first()[j].addr != addr by {
            assert(ps.drop_first()[j] == ps[j + 1]);
        }
        lemma_lookup_index(ps.drop_first(), addr, i - 1);
    }
}

proof fn lemma_lookup_absent(ps: Seq<Process>, addr: SocketAddr)
    requires
        forall|j: int| 0 <= j < ps.len() ==> ps[j].addr != addr,
    ensures
        process_lookup(ps, addr) is None,
    decreases ps.len(),
{
    if ps.len() > 0 {
        assert forall|j: int| 0 <= j < ps.drop_first().len() implies #[trigger] ps.drop_first()[j].addr != addr by {
            assert(ps.drop_first()[j] == ps[j + 1]);
        }
        lemma_lookup_absent(ps.drop_first(), addr);
    }
}

/// In a table with distinct addresses, what an address finds is the entry holding it.
proof fn lemma_lookup_unique(ps: Seq<Process>, addr: SocketAddr)
    requires
        forall|i: int, j: int| 0 <= i < j < ps.len() ==> ps[i].addr != ps[j].addr,
    ensures
        process_lookup(ps, addr) matches Some(p) ==> exists|i: int| 0 <= i < ps.len() && ps[i] == p && p.addr == addr,
        process_lookup(ps, addr) is None ==> forall|j: int| 0 <= j < ps.len() ==> ps[j].addr != addr,
        forall|i: int| 0 <= i < ps.len() && ps[i].addr == addr ==> process_lookup(ps, addr) == Some(ps[i]),
    decreases ps.len(),
{
    if ps.len() > 0 {
        let rest = ps.drop_first();
        assert forall|i: int, j: int| 0 <= i < j < rest.len() implies rest[i].addr != rest[j].addr by {
            assert(rest[i] == ps[i + 1] && rest[j] == ps[j + 1]);
        }
        lemma_lookup_unique(rest, addr);
        if ps[0].addr != addr {
            if process_lookup(ps, addr) is Some {
                let i = choose|i: int| 0 <= i < rest.len() && rest[i] == process_lookup(rest, addr).unwrap() && process_lookup(rest, addr).unwrap().addr == addr;
                assert(ps[i + 1] == rest[i]);
            }
            assert forall|j: int| 0 <= j < ps.len() && process_lookup(ps, addr) is None implies ps[j].addr != addr by {
                if j > 0 {
                    assert(ps[j] == rest[j - 1]);
                }
            }
            assert forall|i: int| 0 <= i < ps.len() && ps[i].addr == addr implies process_lookup(ps, addr) == Some(ps[i]) by {
                assert(i > 0);
                assert(ps[i] == rest[i - 1]);
            }
        } else {
            assert forall|i: int| 0 <= i < ps.len() && ps[i].addr == addr implies process_lookup(ps, addr) == Some(ps[i]) by {
                if i > 0 {
                    assert(ps[0].addr != ps[i].addr);
                }
            }
        }
    }
}

/// The members watched, one record per address.
pub struct FailureDetection {
    pub processes: Vec<Process>,
}

impl FailureDetection {
    /// Every address has at most one record.
    pub open spec fn wf(&self) -> bool {
        forall|i: int, j: int|
            0 <= i < j < self.processes@.len() ==> self.processes@[i].addr != self.processes@[j].addr
    }

    /// The record of `addr`.
    pub open spec fn process(&self, addr: SocketAddr) -> Option<Process> {
        process_lookup(self.processes@, addr)
    }

    pub fn new() -> (res: FailureDetection)
        ensures
            res.wf(),
            forall|a: SocketAddr| #[trigger] res.process(a) is None,
    {
        FailureDetection { processes: Vec::new() }
    }

    fn find(&self, addr: &SocketAddr) -> (idx: usize)
        ensures
            idx <= self.processes@.len(),
            forall|j: int| 0 <= j < idx ==> self.processes@[j].addr != *addr,
            idx < self.processes@.len() ==> self.processes@[idx as int].addr == *addr,
    {
        let mut idx: usize = 0;
        while idx < self.processes.len()
            invariant
                idx <= self.processes@.len(),
                forall|j: int| 0 <= j < idx ==> self.processes@[j].addr != *addr,
            decreases self.processes@.len() - idx,
        {
            if self.processes[idx].addr == *addr {
                return idx;
            }
            idx = idx + 1;
        }
        idx
    }

    /// Watches a member (again) from `now`: alive, its last heartbeat now.
    pub fn add_process(&mut self, addr: SocketAddr, now: u64)
        requires
            old(self).wf(),
        ensures
            final(self).wf(),
            final(self).process(addr) == Some(Process { addr, last_heartbeat: now, is_alive: true }),
            forall|a: SocketAddr| a != addr ==> #[trigger] final(self).process(a) == old(self).process(a),
    {
        let p = Process { addr, last_heartbeat: now, is_alive: true };
        let idx = self.find(&addr);
        proof {
            lemma_lookup_unique(self.processes@, addr);
        }
        if idx < self.processes.len() {
            self.processes.set(idx, p);
        } else {
            self.processes.push(p);
        }
        proof {
            let ps = self.processes@;
            assert(ps[idx as int] == p);
            lemma_lookup_unique(ps, addr);
            assert forall|a: SocketAddr| a != addr implies #[trigger] process_lookup(ps, a) == old(self).process(a) by {
                lemma_lookup_unique(ps, a);
                lemma_lookup_unique(old(self).processes@, a);
                if process_lookup(old(self).processes@, a) is Some {
                    let i = choose|i: int| 0 <= i < old(self).processes@.len() && old(self).processes@[i] == process_lookup(old(self).processes@, a).unwrap() && process_lookup(old(self).processes@, a).unwrap().addr == a;
                    assert(ps[i] == old(self).processes@[i]);
                }
                if process_lookup(ps, a) is Some {
                    let i = choose|i: int| 0 <= i < ps.len() && ps[i] == process_lookup(ps, a).unwrap() && process_lookup(ps, a).unwrap().addr == a;
                    assert(i != idx);
                    assert(ps[i] == old(self).processes@[i]);
                }
            }
        }
    }

    /// Stops watching a member.
    pub fn remove_process(&mut self, addr: &SocketAddr)
        requires
            old(self).wf(),
        ensures
            final(self).wf(),
            final(self).process(*addr) is None,
            forall|a: SocketAddr| a != *addr ==> #[trigger] final(self).process(a) == old(self).process(a),
    {
        let idx = self.find(addr);
        proof {
            lemma_lookup_unique(self.processes@, *addr);
        }
        if idx < self.processes.len() {
            self.processes.remove(idx);
        }
        proof {
            let ps = self.processes@;
            let o = old(self).processes@;
            assert forall|j: int| 0 <= j < ps.len() implies ps[j].addr != *addr by {
                if idx < o.len() {
                    if j < idx {
                        assert(ps[j] == o[j]);
                    } else {
                        assert(ps[j] == o[j + 1]);
                        assert(o[idx as int].addr != o[j + 1].addr);
                    }
                }
            }
            lemma_lookup_absent(ps, *addr);
            lemma_lookup_unique(ps, *addr);
            assert forall|a: SocketAddr| a != *addr implies #[trigger] process_lookup(ps, a) == old(self).process(a) by {
                lemma_lookup_unique(ps, a);
                lemma_lookup_unique(o, a);
                if process_lookup(o, a) is Some {
                    let i = choose|i: int| 0 <= i < o.len() && o[i] == process_lookup(o, a).unwrap() && process_lookup(o, a).unwrap().addr == a;
                    if idx < o.len() {
                        assert(i != idx);
                        if i < idx {
                            assert(ps[i] == o[i]);
                        } else {
                            assert(ps[i - 1] == o[i]);
                        }
                    } else {
                        assert(ps[i] == o[i]);
                    }
                }
                if process_lookup(ps, a) is Some {
                    let i = choose|i: int| 0 <= i < ps.len() && ps[i] == process_lookup(ps, a).unwrap() && process_lookup(ps, a).unwrap().addr == a;
                    if idx < o.len() && i >= idx {
                        assert(ps[i] == o[i + 1]);
                    } else {
                        assert(ps[i] == o[i]);
                    }
                }
            }
        }
    }

    /// Notes a heartbeat from a watched member at `now`.
    pub fn update_heartbeat(&mut self, addr: &SocketAddr, now: u64)
        requires
            old(self).wf(),
        ensures
            final(self).wf(),
            final(self).process(*addr) == match old(self).process(*addr) {
                Some(p) => Some(Process { last_heartbeat: now, ..p }),
                None => None,
            },
            forall|a: SocketAddr| a != *addr ==> #[trigger] final(self).process(a) == old(self).process(a),
    {
        let idx = self.find(addr);
        proof {
            lemma_lookup_unique(self.processes@, *addr);
        }
        if idx < self.processes.len() {
            let mut p = self.processes[idx];
            p.last_heartbeat = now;
            self.processes.set(idx, p);
            proof {
                let ps = self.processes@;
                let o = old(self).processes@;
                assert(process_lookup(o, *addr) == Some(o[idx as int]));
                assert forall|j: int| 0 <= j < idx implies ps[j].addr != *addr by {
                    assert(ps[j] == o[j]);
                }
                lemma_lookup_index(ps, *addr, idx as int);
            }
        } else {
            proof {
                lemma_lookup_absent(self.processes@, *addr);
            }
        }
        proof {
            let ps = self.processes@;
            let o = old(self).processes@;
            lemma_lookup_unique(ps, *addr);
            assert forall|a: SocketAddr| a != *addr implies #[trigger] process_lookup(ps, a) == old(self).process(a) by {
                lemma_lookup_unique(ps, a);
                lemma_lookup_unique(o, a);
                if process_lookup(o, a) is Some {
                    let i = choose|i: int| 0 <= i < o.len() && o[i] == process_lookup(o, a).unwrap() && process_lookup(o, a).unwrap().addr == a;
                    assert(ps[i] == o[i]);
                }
                if process_lookup(ps, a) is Some {
                    let i = choose|i: int| 0 <= i < ps.len() && ps[i] == process_lookup(ps, a).unwrap() && process_lookup(ps, a).unwrap().addr == a;
                    assert(ps[i] == o[i]);
                }
            }
        }
    }

    /// Whether a watched member is believed alive (an unwatched one is not).
    pub fn is_alive(&self, addr: &SocketAddr) -> (res: bool)
        requires
            self.wf(),
        ensures
            res == (self.process(*addr) matches Some(p) && p.is_alive),
    {
        let idx = self.find(addr);
        proof {
            lemma_lookup_unique(self.processes@, *addr);
        }
        if idx < self.processes.len() {
            self.processes[idx].is_alive
        } else {
            false
        }
    }

    /// Whether a watched member has been silent for longer than the timeout at `now`.
    pub fn is_dead(&self, addr: &SocketAddr, now: u64) -> (res: bool)
        requires
            self.wf(),
        ensures
            res == (self.process(*addr) matches Some(p) && elapsed(p.last_heartbeat, now) > TIMEOUT),
    {
        let idx = self.find(addr);
        proof {
            lemma_lookup_unique(self.processes@, *addr);
        }
        if idx < self.processes.len() {
            now.saturating_sub(self.processes[idx].last_heartbeat) > TIMEOUT
        } else {
            false
        }
    }

    /// Marks as not alive every member silent for longer than the timeout at `now`.
    pub fn detect_failures(&mut self, now: u64)
        requires
            old(self).wf(),
        ensures
            final(self).wf(),
            final(self).processes@.len() == old(self).processes@.len(),
            forall|i: int| 0 <= i < old(self).processes@.len() ==> #[trigger] final(self).processes@[i] == if elapsed(
                old(self).processes@[i].last_heartbeat,
                now,
            ) > TIMEOUT {
                Process { is_alive: false, ..old(self).processes@[i] }
            } else {
                old(self).processes@[i]
            },
    {
        let mut i: usize = 0;
        while i < self.processes.len()
            invariant
                i <= self.processes@.len(),
                self.processes@.len() == old(self).processes@.len(),
                forall|j: int| 0 <= j < old(self).processes@.len() ==> #[trigger] self.processes@[j] == if j < i && elapsed(
                    old(self).processes@[j].last_heartbeat,
                    now,
                ) > TIMEOUT {
                    Process { is_alive: false, ..old(self).processes@[j] }
                } else {
                    old(self).processes@[j]
                },
            decreases self.processes@.len() - i,
        {
            let mut p = self.processes[i];
            if now.saturating_sub(p.last_heartbeat) > TIMEOUT {
                p.is_alive = false;
                self.processes.set(i, p);
            }
            i = i + 1;
        }
        proof {
            assert forall|a: int, b: int| 0 <= a < b < self.processes@.len() implies self.processes@[a].addr != self.processes@[b].addr by {
                assert(self.processes@[a].addr == old(self).processes@[a].addr);
                assert(self.processes@[b].addr == old(self).processes@[b].addr);
            }
        }
    }

    /// Sends a heartbeat to a member: the sending is done by the caller's channel,
    /// nothing is recorded here.
    pub fn send_heartbeat(&self, addr: &SocketAddr) {
    }

    /// A heartbeat from a member arrived at `now`.
    pub fn receive_heartbeat(&mut self, addr: &SocketAddr, now: u64)
        requires
            old(self).wf(),
        ensures
            final(self).wf(),
            final(self).process(*addr) == match old(self).process(*addr) {
                Some(p) => Some(Process { last_heartbeat: now, ..p }),
                None => None,
            },
            forall|a: SocketAddr| a != *addr ==> #[trigger] final(self).process(a) == old(self).process(a),
    {
        self.update_heartbeat(addr, now);
    }
}

} // verus!
