//! The full-duplex forwarding session, as a state machine over plain events.
//!
//! A session owns two directions (downstream to upstream and back). The
//! surrounding runtime reads, writes and shuts sockets down; this module
//! decides what to do and accounts for every byte, so the copy discipline is
//! proved: bytes flow in order without loss or reordering, and a direction's
//! peer write side is shut down only after that direction's own read half has
//! reached end of input.

use vstd::prelude::*;
use vstd::math::min;

verus! {

/// One copy direction of a session.
pub struct Direction {
    /// Whether the read side has reached end of input.
    pub eof: bool,
    /// Whether the peer's write side has been ordered shut. Never set before
    /// `eof`: a half-closed peer keeps receiving until this side's read half
    /// ends.
    pub shutdown_sent: bool,
    /// Bytes read from the source but not yet written to the sink.
    pub pending: Vec<u8>,
    /// Every byte read from the source, in order.
    pub sent: Ghost<Seq<u8>>,
    /// Every byte written to the sink, in order.
    pub delivered: Ghost<Seq<u8>>,
}

impl Direction {
    /// The copy discipline: what was written, followed by what still waits,
    /// is exactly what was read; and the peer is never shut before end of
    /// input.
    pub open spec fn wf(self) -> bool {
        &&& self.delivered@ + self.pending@ == self.sent@
        &&& (self.shutdown_sent ==> self.eof)
    }

    /// Both ends of this direction are finished: end of input was seen and
    /// every byte has been written on.
    pub open spec fn complete(self) -> bool {
        self.eof && self.pending@.len() == 0
    }

    pub fn new() -> (r: Direction)
        ensures
            r.wf(),
            !r.eof,
            !r.shutdown_sent,
            r.pending@ =~= Seq::<u8>::empty(),
            r.sent@ =~= Seq::<u8>::empty(),
            r.delivered@ =~= Seq::<u8>::empty(),
    {
        Direction {
            eof: false,
            shutdown_sent: false,
            pending: Vec::new(),
            sent: Ghost(Seq::empty()),
            delivered: Ghost(Seq::empty()),
        }
    }

    /// Accounts for one chunk read from the source: it joins the bytes
    /// awaiting a write, behind any earlier ones.
    pub fn on_read(&mut self, data: &Vec<u8>)
        requires
            old(self).wf(),
            !old(self).eof,
        ensures
            final(self).wf(),
            final(self).sent@ == old(self).sent@ + data@,
            final(self).pending@ == old(self).pending@ + data@,
            final(self).delivered@ == old(self).delivered@,
            final(self).eof == old(self).eof,
            final(self).shutdown_sent == old(self).shutdown_sent,
    {
        let mut i: usize = 0;
        let ghost p0 = self.pending@;
        while i < data.len()
            invariant
                i <= data@.len(),
                self.pending@ == p0 + data@.take(i as int),
                self.eof == old(self).eof,
                self.shutdown_sent == old(self).shutdown_sent,
                self.sent == old(self).sent,
                self.delivered == old(self).delivered,
            decreases data@.len() - i,
        {
            self.pending.push(data[i]);
            proof {
                assert(p0 + data@.take(i as int + 1) =~= (p0 + data@.take(i as int)).push(
                    data@[i as int],
                ));
            }
            i += 1;
        }
        proof {
            assert(data@.take(data@.len() as int) =~= data@);
        }
        self.sent = Ghost(self.sent@ + data@);
        proof {
            assert(self.delivered@ + self.pending@ =~= self.sent@);
        }
    }

    /// Accounts for end of input on the read side.
    pub fn on_read_eof(&mut self)
        requires
            old(self).wf(),
        ensures
            final(self).wf(),
            final(self).eof,
            final(self).sent@ == old(self).sent@,
            final(self).pending@ == old(self).pending@,
            final(self).delivered@ == old(self).delivered@,
            final(self).shutdown_sent == old(self).shutdown_sent,
    {
        self.eof = true;
    }

    /// Hands out the oldest `n` waiting bytes (all of them when fewer wait)
    /// for one write to the sink, and accounts for them as delivered, in
    /// order.
    pub fn take_write(&mut self, n: usize) -> (r: Vec<u8>)
        requires
            old(self).wf(),
        ensures
            final(self).wf(),
            r@ == old(self).pending@.take(min(n as int, old(self).pending@.len() as int)),
            final(self).pending@ == old(self).pending@.skip(
                min(n as int, old(self).pending@.len() as int),
            ),
            final(self).delivered@ == old(self).delivered@ + r@,
            final(self).sent@ == old(self).sent@,
            final(self).eof == old(self).eof,
            final(self).shutdown_sent == old(self).shutdown_sent,
    {
        let k = if n < self.pending.len() {
            n
        } else {
            self.pending.len()
        };
        let tail = self.pending.split_off(k);
        let head = self.pending.split_off(0);
        self.pending = tail;
        self.delivered = Ghost(self.delivered@ + head@);
        proof {
            assert(old(self).pending@.take(k as int) =~= old(self).pending@.subrange(0, k as int));
            assert(self.delivered@ + self.pending@ =~= self.sent@) by {
                assert(old(self).pending@.take(k as int) + old(self).pending@.skip(k as int)
                    =~= old(self).pending@);
            }
        }
        head
    }

    /// Decides whether the peer's write side is to be shut down now: exactly
    /// once, only after end of input, and only with no byte left to write.
    pub fn poll_shutdown(&mut self) -> (r: bool)
        requires
            old(self).wf(),
        ensures
            final(self).wf(),
            r == (old(self).complete() && !old(self).shutdown_sent),
            final(self).shutdown_sent == (old(self).shutdown_sent || old(self).complete()),
            final(self).eof == old(self).eof,
            final(self).pending@ == old(self).pending@,
            final(self).sent@ == old(self).sent@,
            final(self).delivered@ == old(self).delivered@,
    {
        if self.eof && self.pending.len() == 0 && !self.shutdown_sent {
            self.shutdown_sent = true;
            true
        } else {
            false
        }
    }
}

/// Delivery is always a prefix of what was read: bytes arrive in order and
/// none is invented.
pub proof fn lemma_delivery_in_order(d: Direction)
    requires
        d.wf(),
    ensures
        d.delivered@ == d.sent@.take(d.delivered@.len() as int),
{
    assert(d.sent@.take(d.delivered@.len() as int) =~= d.delivered@);
}

/// The round trip: once a direction is complete, the sink has received
/// exactly the byte sequence the source produced.
pub proof fn lemma_round_trip(d: Direction)
    requires
        d.wf(),
        d.complete(),
    ensures
        d.delivered@ == d.sent@,
{
    assert(d.pending@ =~= Seq::<u8>::empty());
    assert(d.delivered@ + d.pending@ =~= d.delivered@);
}

/// Half-close: the peer's write side is shut down only once this direction's
/// own read half has reached end of input.
pub proof fn lemma_half_close(d: Direction)
    requires
        d.wf(),
    ensures
        d.shutdown_sent ==> d.eof,
{
}

/// A forwarding session: both directions plus the error latch.
pub struct Session {
    /// Downstream reads copied toward the upstream.
    pub down_up: Direction,
    /// Upstream reads copied toward the downstream.
    pub up_down: Direction,
    /// Set on any I/O error; the session then terminates and both sockets
    /// are closed.
    pub failed: bool,
}

impl Session {
    pub open spec fn wf(self) -> bool {
        self.down_up.wf() && self.up_down.wf()
    }

    /// A session terminates only when both directions are complete, or on an
    /// error on either side.
    pub open spec fn done(self) -> bool {
        self.failed || (self.down_up.complete() && self.up_down.complete())
    }

    pub fn new() -> (r: Session)
        ensures
            r.wf(),
            !r.failed,
            !r.done(),
            r.down_up.sent@ =~= Seq::<u8>::empty(),
            r.up_down.sent@ =~= Seq::<u8>::empty(),
    {
        Session { down_up: Direction::new(), up_down: Direction::new(), failed: false }
    }

    /// Latches an I/O error: the session is over.
    pub fn on_error(&mut self)
        requires
            old(self).wf(),
        ensures
            final(self).wf(),
            final(self).failed,
            final(self).done(),
            final(self).down_up == old(self).down_up,
            final(self).up_down == old(self).up_down,
    {
        self.failed = true;
    }

    /// Whether the session has terminated.
    pub fn is_done(&self) -> (r: bool)
        ensures
            r == self.done(),
    {
        self.failed || (self.down_up.eof && self.down_up.pending.len() == 0 && self.up_down.eof
            && self.up_down.pending.len() == 0)
    }
}

} // verus!
