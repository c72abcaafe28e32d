//! The boundary to the transport.
use vstd::prelude::*;

verus! {

/// Whether a datagram handed to the transport actually left.
///
/// `Rejected` is normal flow control: the transport's send buffer is full.
#[derive(Debug, Clone, Copy, PartialEq, Eq, Structural)]
pub enum SendOutcome {
    Sent,
    Rejected,
}

/// Where every datagram goes: sources, parities and retransmissions.
pub trait DatagramSender {
    /// Whether the transport says what it has taken and how often it has
    /// rejected.  One that leaves this as it is here promises nothing.
    open spec fn keeps_account(&self) -> bool {
        false
    }

    /// The datagrams that the transport has taken, in order.
    open spec fn accepted(&self) -> Seq<Seq<u8>> {
        Seq::empty()
    }

    /// How often the transport has rejected a datagram.
    open spec fn refusals(&self) -> nat {
        0
    }

    /// Hands one datagram to the transport.  One that is rejected is counted
    /// and not taken: the emitter queues it again and tries later.
    fn send(&mut self, dg: &[u8]) -> (r: SendOutcome)
        ensures
            old(self).keeps_account() ==> final(self).keeps_account() && final(self).accepted()
                == (match r {
                SendOutcome::Sent => old(self).accepted().push(dg@),
                SendOutcome::Rejected => old(self).accepted(),
            }) && final(self).refusals() == (match r {
                SendOutcome::Sent => old(self).refusals(),
                SendOutcome::Rejected => old(self).refusals() + 1,
            }),
    ;
}

} // verus!
