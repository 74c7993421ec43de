//! Fault injection at the datagram socket.
//!
//! Real networks drop datagrams; loopback never does, which is precisely why the reliability layer needs
//! a fault-injecting socket to be tested honestly. Which datagrams are dropped is decided here.

use vstd::prelude::*;

verus! {

/// A deterministic fault policy for a test link: which outbound datagrams to drop.
///
/// Determinism is the point. A flaky, probabilistic test proves nothing repeatably; a fixed schedule
/// keyed to the send count lets a test assert "a dropped FIN is recovered" and get the same answer every
/// run. Drops are the one fault stop-and-wait actually exposes end to end: with a single frame in flight
/// the receiver never observes reordering, so only loss (of data, of the FIN, or of an ack) exercises the
/// reliability layer.
#[derive(Debug)]
pub struct Faults {
    /// 1-based indices of outbound datagrams to drop entirely.
    pub drop_sends: Vec<u64>,
}

impl Default for Faults {
    fn default() -> (faults: Self)
        ensures
            faults.drop_sends@ == Seq::<u64>::empty(),
    {
        Faults { drop_sends: Vec::new() }
    }
}

impl Clone for Faults {
    fn clone(&self) -> (copy: Self)
        ensures
            copy.drop_sends@ == self.drop_sends@,
    {
        let drop_sends = self.drop_sends.clone();
        assert(drop_sends@ =~= self.drop_sends@);
        Faults { drop_sends }
    }
}

impl Faults {
    /// Drop the outbound datagrams at these 1-based send counts.
    pub fn drop_sends(indices: Vec<u64>) -> (faults: Self)
        ensures
            faults.drop_sends@ == indices@,
    {
        Faults { drop_sends: indices }
    }

    /// Whether the `count`-th outbound datagram is dropped.
    pub fn drops(&self, count: u64) -> (drops: bool)
        ensures
            drops == self.drop_sends@.contains(count),
    {
        let mut at: usize = 0;
        while at < self.drop_sends.len()
            invariant
                at <= self.drop_sends@.len(),
                forall|i: int| 0 <= i < at ==> #[trigger] self.drop_sends@[i] != count,
            decreases self.drop_sends@.len() - at,
        {
            if self.drop_sends[at] == count {
                assert(self.drop_sends@[at as int] == count);
                return true;
            }
            at = at + 1;
        }
        false
    }
}

/// What becomes of one outbound datagram.
#[derive(Debug, Clone, Copy, PartialEq, Eq, Structural)]
pub enum Fate {
    /// It leaves the host.
    Send,
    /// It is dropped, and this many bytes are reported as sent, so the sender proceeds exactly as if
    /// the datagram had left the host; the reliability layer must recover it.
    Drop {
        /// The number of bytes to report.
        reported: usize,
    },
}

/// A fault injector: applies a [`Faults`] schedule to the datagrams crossing a socket.
#[derive(Debug)]
pub struct Faulty {
    faults: Faults,
    sends: u64,
}

impl Faulty {
    /// The 1-based send counts that are dropped.
    pub closed spec fn schedule(&self) -> Seq<u64> {
        self.faults.drop_sends@
    }

    /// How many datagrams have been sent so far, dropped ones included.
    pub closed spec fn sends(&self) -> u64 {
        self.sends
    }

    /// An injector that has seen no datagram yet.
    pub fn new(faults: Faults) -> (faulty: Self)
        ensures
            faulty.schedule() == faults.drop_sends@,
            faulty.sends() == 0,
    {
        Faulty { faults, sends: 0 }
    }

    /// Whether another send can be counted.
    pub fn can_count(&self) -> (can: bool)
        ensures
            can == (self.sends() < u64::MAX),
    {
        self.sends < u64::MAX
    }

    /// Count one outbound datagram and decide what becomes of it.
    pub fn send_to(&mut self, bytes: &[u8]) -> (fate: Fate)
        requires
            old(self).sends() < u64::MAX,
        ensures
            final(self).schedule() == old(self).schedule(),
            final(self).sends() == old(self).sends() + 1,
            fate == if old(self).schedule().contains(final(self).sends()) {
                Fate::Drop { reported: bytes@.len() as usize }
            } else {
                Fate::Send
            },
    {
        self.sends = self.sends + 1;
        if self.faults.drops(self.sends) {
            Fate::Drop { reported: bytes.len() }
        } else {
            Fate::Send
        }
    }
}

} // verus!
