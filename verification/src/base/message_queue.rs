//! A first-in, first-out queue of messages.
use vstd::prelude::*;

verus! {

/// Why nothing was received.
#[derive(Clone, Copy, Debug, PartialEq, Eq, Structural)]
pub enum RecvTimeoutError {
    /// No message is waiting.
    Timeout,
    /// The other side is gone.
    Disconnected,
}

/// Messages in the order they were sent.
pub struct MessageQueue<T> {
    pub queue: Vec<T>,
}

impl<T> MessageQueue<T> {
    /// The waiting messages, oldest first.
    pub open spec fn view(&self) -> Seq<T> {
        self.queue@
    }

    /// An empty queue.
    pub fn new() -> (q: MessageQueue<T>)
        ensures
            q.view() == Seq::<T>::empty(),
    {
        MessageQueue { queue: Vec::new() }
    }

    /// Puts a message at the back of the queue.
    pub fn send(&mut self, msg: T) -> (res: Result<(), RecvTimeoutError>)
        ensures
            res is Ok,
            final(self).view() == old(self).view().push(msg),
    {
        self.queue.push(msg);
        Ok(())
    }

    /// Takes the oldest message; there must be one (a caller that may find the
    /// queue empty waits until a message is sent, then calls this).
    pub fn recv(&mut self) -> (res: Result<T, RecvTimeoutError>)
        requires
            old(self).view().len() > 0,
        ensures
            res == Ok::<T, RecvTimeoutError>(old(self).view()[0]),
            final(self).view() == old(self).view().drop_first(),
    {
        let msg = self.queue.remove(0);
        proof {
            assert(self.queue@ =~= old(self).view().drop_first());
        }
        Ok(msg)
    }

    /// Takes the oldest message if there is one, without waiting.
    pub fn try_recv(&mut self) -> (res: Result<T, RecvTimeoutError>)
        ensures
            old(self).view().len() > 0 ==> res == Ok::<T, RecvTimeoutError>(old(self).view()[0])
                && final(self).view() == old(self).view().drop_first(),
            old(self).view().len() == 0 ==> res == Err::<T, RecvTimeoutError>(RecvTimeoutError::Timeout)
                && final(self).view() == old(self).view(),
    {
        if self.queue.len() > 0 {
            let msg = self.queue.remove(0);
            proof {
                assert(self.queue@ =~= old(self).view().drop_first());
            }
            Ok(msg)
        } else {
            Err(RecvTimeoutError::Timeout)
        }
    }
}

/// Law: messages leave the queue in the order they entered it: after sending
/// `a` then `b` to an empty queue, the first receive gives `a` and the next `b`.
pub proof fn lemma_fifo<T>(q0: Seq<T>, a: T, b: T)
    requires
        q0.len() == 0,
    ensures
        q0.push(a).push(b)[0] == a,
        q0.push(a).push(b).drop_first()[0] == b,
        q0.push(a).push(b).drop_first().drop_first().len() == 0,
{
}

} // verus!
