//! The broadcast fan-out channel: one shared log of published messages, read
//! by any number of independent cursors.
//!
//! A cursor starts at the position where it subscribes, so messages published
//! earlier are never delivered to it. The channel retains at most `capacity`
//! messages; a cursor that falls behind the retained window skips forward to
//! the oldest retained message, so a slow reader loses the oldest messages
//! rather than blocking publishers or other readers.

use vstd::prelude::*;

use crate::protocol::{ProtocolMessage, ProtocolMessageView};

verus! {

/// The broadcast channel.
pub struct Channel {
    /// Every message ever published, in publish order.
    log: Vec<ProtocolMessage>,
    /// The index of the oldest message still retained.
    start: usize,
    /// How many messages are retained at most.
    capacity: usize,
}

/// One subscriber's read position.
pub struct Cursor {
    /// The index of the next message to deliver.
    pub next: usize,
}

/// Where a cursor actually reads: a cursor that fell behind the retained
/// window is moved up to the oldest retained message.
pub open spec fn read_pos(next: int, start: int) -> int {
    if next < start {
        start
    } else {
        next
    }
}

impl Channel {
    /// The full publish history, in publish order.
    pub closed spec fn log_view(&self) -> Seq<ProtocolMessageView> {
        self.log.deep_view()
    }

    /// The index of the oldest retained message.
    pub closed spec fn start_of(&self) -> int {
        self.start as int
    }

    /// The retention bound.
    pub closed spec fn capacity_of(&self) -> int {
        self.capacity as int
    }

    /// The channel retains at most `capacity` messages, all inside the log.
    pub closed spec fn wf(&self) -> bool {
        &&& self.start <= self.log.len()
        &&& self.log.len() - self.start <= self.capacity
        &&& self.capacity >= 1
    }

    /// An empty channel that will retain at most `capacity` messages.
    pub fn new(capacity: usize) -> (r: Channel)
        requires
            capacity >= 1,
        ensures
            r.wf(),
            r.log_view() =~= Seq::<ProtocolMessageView>::empty(),
            r.start_of() == 0,
            r.capacity_of() == capacity,
    {
        Channel { log: Vec::new(), start: 0, capacity }
    }

    /// Publishes one message: it goes at the end of the log, and if the
    /// retained window was full, the oldest retained message is dropped.
    /// Publishing never blocks on readers.
    pub fn publish(&mut self, m: ProtocolMessage)
        requires
            old(self).wf(),
        ensures
            final(self).wf(),
            final(self).log_view() =~= old(self).log_view().push(m@),
            final(self).capacity_of() == old(self).capacity_of(),
            old(self).log_view().len() - old(self).start_of() == old(self).capacity_of()
                ==> final(self).start_of() == old(self).start_of() + 1,
            old(self).log_view().len() - old(self).start_of() < old(self).capacity_of()
                ==> final(self).start_of() == old(self).start_of(),
    {
        if self.log.len() - self.start == self.capacity {
            self.start = self.start + 1;
        }
        self.log.push(m);
        proof {
            assert(self.log.deep_view() =~= old(self).log.deep_view().push(m@));
        }
    }

    /// A new subscription: its cursor starts at the end of the log, so it
    /// sees only what is published after it.
    pub fn subscribe(&self) -> (c: Cursor)
        ensures
            c.next == self.log_view().len(),
    {
        Cursor { next: self.log.len() }
    }

    /// Delivers the next retained message to this cursor, if any, and moves
    /// the cursor past it.
    pub fn try_recv(&self, c: &mut Cursor) -> (r: Option<ProtocolMessage>)
        requires
            self.wf(),
        ensures
            ({
                let p = read_pos(old(c).next as int, self.start_of());
                match r {
                    Some(m) => p < self.log_view().len() && m@ == self.log_view()[p]
                        && final(c).next == p + 1,
                    None => p >= self.log_view().len() && final(c).next == p,
                }
            }),
    {
        let p = if c.next < self.start {
            self.start
        } else {
            c.next
        };
        if p < self.log.len() {
            c.next = p + 1;
            Some(self.log[p].clone())
        } else {
            c.next = p;
            None
        }
    }
}

/// One successful delivery step of a cursor that stands at position `a`:
/// the message at the read position is delivered and the cursor moves to `b`.
pub open spec fn recv_step(log: Seq<ProtocolMessageView>, start: int, a: int, b: int) -> bool {
    read_pos(a, start) < log.len() && b == read_pos(a, start) + 1
}

/// A run of successful deliveries: `ps` is the sequence of cursor positions,
/// each one reached from the one before it by a delivery.
pub open spec fn recv_chain(log: Seq<ProtocolMessageView>, start: int, ps: Seq<int>) -> bool
    decreases ps.len(),
{
    ps.len() <= 1 || (recv_step(log, start, ps[0], ps[1]) && recv_chain(
        log,
        start,
        ps.drop_first(),
    ))
}

/// Fan-out: a cursor that subscribed at position `ps[0]` and has not fallen
/// behind the retained window walks the log one position at a time. So over
/// any run of deliveries it receives exactly the messages published after its
/// subscription, each exactly once, in publish order.
pub proof fn lemma_fanout(log: Seq<ProtocolMessageView>, start: int, ps: Seq<int>)
    requires
        recv_chain(log, start, ps),
        ps.len() >= 1,
        0 <= start <= ps[0],
        ps[0] <= log.len(),
    ensures
        forall|i: int| 0 <= i < ps.len() ==> #[trigger] ps[i] == ps[0] + i,
        ps.last() <= log.len(),
    decreases ps.len(),
{
    if ps.len() > 1 {
        let tail = ps.drop_first();
        assert(recv_step(log, start, ps[0], ps[1]));
        assert(read_pos(ps[0], start) == ps[0]);
        assert(ps[1] == ps[0] + 1);
        lemma_fanout(log, start, tail);
        assert forall|i: int| 0 <= i < ps.len() implies #[trigger] ps[i] == ps[0] + i by {
            if i >= 1 {
                assert(tail[i - 1] == tail[0] + (i - 1));
                assert(tail[i - 1] == ps[i]);
            }
        }
        assert(ps.last() == tail.last());
    }
}

} // verus!
