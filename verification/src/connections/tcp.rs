//! Accepting TCP connections, with an exponential back-off on errors.
use vstd::prelude::*;

verus! {

/// What to do after accepting an inbound connection failed.
#[derive(Debug, Clone, Copy, PartialEq, Eq)]
pub enum AcceptRetry {
    /// Wait this many seconds, then try again.
    Wait(u64),
    /// Stop and report the error.
    GiveUp,
}

/// The back-off of the accept loop: after the first failure it waits 1
/// second, and each further failure doubles the wait; when accepting still
/// fails after the wait of 64 seconds, that is on the eighth failure, it
/// gives up.
#[derive(Debug, Clone, Copy, PartialEq, Eq)]
pub struct AcceptBackoff {
    backoff: u64,
}

/// The waits, in seconds, of the failures that follow a state whose next
/// wait is `b`, up to giving up.
pub open spec fn spec_backoff_waits(b: nat) -> Seq<nat>
    decreases 129 - b,
{
    if b > 64 || b == 0 {
        Seq::empty()
    } else {
        seq![b] + spec_backoff_waits(2 * b)
    }
}

impl View for AcceptBackoff {
    type V = nat;

    closed spec fn view(&self) -> nat {
        self.backoff as nat
    }
}

impl AcceptBackoff {
    /// The back-off before any failure.
    pub closed spec fn well_formed(&self) -> bool {
        1 <= self.backoff <= 128
    }

    /// A fresh back-off: the first failure waits 1 second.
    pub fn new() -> (res: AcceptBackoff)
        ensures
            res@ == 1,
            res.well_formed(),
    {
        AcceptBackoff { backoff: 1 }
    }

    /// The decision after a failed accept: give up once the wait would exceed
    /// 64 seconds, otherwise wait and double the next wait.
    pub fn on_error(&mut self) -> (res: AcceptRetry)
        requires
            old(self).well_formed(),
        ensures
            final(self).well_formed(),
            old(self)@ > 64 ==> res == AcceptRetry::GiveUp && final(self)@ == old(self)@,
            old(self)@ <= 64 ==> res == AcceptRetry::Wait(old(self)@ as u64) && final(self)@ == 2
                * old(self)@,
    {
        if self.backoff > 64 {
            AcceptRetry::GiveUp
        } else {
            let wait = self.backoff;
            self.backoff = self.backoff * 2;
            AcceptRetry::Wait(wait)
        }
    }
}

/// From a fresh back-off, the first seven failures wait 1, 2, 4, 8, 16, 32
/// and 64 seconds; the eighth failure gives up.
pub proof fn lemma_backoff_schedule()
    ensures
        spec_backoff_waits(1) == seq![1nat, 2, 4, 8, 16, 32, 64],
        spec_backoff_waits(128) == Seq::<nat>::empty(),
{
    assert(spec_backoff_waits(128) =~= Seq::<nat>::empty());
    assert(spec_backoff_waits(64) =~= seq![64nat]);
    assert(spec_backoff_waits(32) =~= seq![32nat, 64]);
    assert(spec_backoff_waits(16) =~= seq![16nat, 32, 64]);
    assert(spec_backoff_waits(8) =~= seq![8nat, 16, 32, 64]);
    assert(spec_backoff_waits(4) =~= seq![4nat, 8, 16, 32, 64]);
    assert(spec_backoff_waits(2) =~= seq![2nat, 4, 8, 16, 32, 64]);
    assert(spec_backoff_waits(1) =~= seq![1nat, 2, 4, 8, 16, 32, 64]);
}

} // verus!
