//! The read horizon: the newest sequence number whose data is durable and
//! applied.
//!
//! Snapshots read at the horizon, never at the number that was handed out
//! last, so that one taken in the middle of a commit cannot see half of it.

use vstd::prelude::*;

verus! {

/// The horizon after a sequence number has been published.
pub open spec fn published(horizon: u64, seq: u64) -> u64 {
    if seq > horizon {
        seq
    } else {
        horizon
    }
}

/// The published read horizon.
#[derive(Debug)]
pub struct ReadHorizon {
    seq: u64,
}

impl ReadHorizon {
    /// The horizon.
    pub closed spec fn seq(&self) -> u64 {
        self.seq
    }

    /// A horizon that starts at `seq`, the last sequence number that recovery
    /// found.
    pub fn new(seq: u64) -> (r: Self)
        ensures
            r.seq() == seq,
    {
        ReadHorizon { seq }
    }

    /// The newest sequence number that a snapshot may read.
    pub fn visible(&self) -> (r: u64)
        ensures
            r == self.seq(),
    {
        self.seq
    }

    /// Publish `seq` as durable and applied. The horizon never goes back, so a
    /// slow writer that finishes after a faster one cannot hide its data.
    pub fn publish(&mut self, seq: u64)
        ensures
            final(self).seq() == published(old(self).seq(), seq),
    {
        if seq > self.seq {
            self.seq = seq;
        }
    }

    /// Go back to 0, after all data has been dropped.
    pub fn reset(&mut self)
        ensures
            final(self).seq() == 0,
    {
        self.seq = 0;
    }
}

/// The horizon never goes back and never passes what was published, and it
/// comes out the same whichever of two writers is faster.
pub proof fn lemma_publishing_goes_forward(horizon: u64, a: u64, b: u64)
    ensures
        published(horizon, a) >= horizon,
        published(horizon, a) >= a,
        published(horizon, a) == horizon || published(horizon, a) == a,
        published(published(horizon, a), b) == published(published(horizon, b), a),
{
}

} // verus!
