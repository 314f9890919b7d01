//! Handing a write over to the thread that commits it.
//!
//! A writer has one slot. It arms the slot with a request; whoever leads the
//! commit takes the request, commits it and leaves the outcome; the writer
//! collects the outcome, and the slot can be armed again.

use super::batch::op_views;
use super::batch::OpView;
use super::batch::WriteBatchOp;
use crate::error::Error;
use crate::error::ErrorKind;
use vstd::prelude::*;

verus! {

/// When a write has to be on disk.
#[derive(Debug, Clone, Copy, PartialEq, Eq, Structural)]
pub enum DurabilityMode {
    /// Before the write returns.
    Immediate,
    /// Some time later.
    Eventual,
}

/// What is done with the log once a write has been appended to it.
#[derive(Debug, Clone, Copy, PartialEq, Eq, Structural)]
pub enum LogStep {
    /// The write goes past the log.
    Skip,
    /// Hand the buffered bytes to the system.
    Flush,
    /// Have the system bring them to disk.
    Sync,
}

/// What a write asks of the log.
pub open spec fn asked_of_log(durability: DurabilityMode, disable_wal: bool) -> LogStep {
    if disable_wal {
        LogStep::Skip
    } else {
        match durability {
            DurabilityMode::Immediate => LogStep::Sync,
            DurabilityMode::Eventual => LogStep::Flush,
        }
    }
}

/// What a write asks of the log.
pub fn log_step(durability: DurabilityMode, disable_wal: bool) -> (r: LogStep)
    ensures
        r == asked_of_log(durability, disable_wal),
{
    if disable_wal {
        LogStep::Skip
    } else {
        match durability {
            DurabilityMode::Immediate => LogStep::Sync,
            DurabilityMode::Eventual => LogStep::Flush,
        }
    }
}

/// What a writer asks for.
pub enum WriteRequest {
    Idle,
    Put { key: Vec<u8>, value: Vec<u8>, durability: DurabilityMode, disable_wal: bool },
    Batch { ops: Vec<WriteBatchOp>, durability: DurabilityMode, disable_wal: bool },
}

impl WriteRequest {
    /// The writes of the request.
    pub open spec fn ops(&self) -> Seq<OpView> {
        match self {
            WriteRequest::Idle => Seq::empty(),
            WriteRequest::Put { key, value, durability, disable_wal } => seq![
                OpView::Put { key: key@, value: value@ },
            ],
            WriteRequest::Batch { ops, durability, disable_wal } => op_views(ops@),
        }
    }

    /// How many sequence numbers the request takes.
    pub fn op_count(&self) -> (r: usize)
        ensures
            r == self.ops().len(),
    {
        match self {
            WriteRequest::Idle => 0,
            WriteRequest::Put { key, value, durability, disable_wal } => 1,
            WriteRequest::Batch { ops, durability, disable_wal } => ops.len(),
        }
    }
}

/// Whose turn it is.
#[derive(Debug, Clone, Copy, PartialEq, Eq, Structural)]
pub enum SlotState {
    /// The writer's, to ask.
    Idle,
    /// The leader's.
    Pending,
    /// The writer's, to collect.
    Done,
}

/// The slot of a writer.
pub struct WriteSlot {
    pub state: SlotState,
    pub request: WriteRequest,
    pub outcome: Option<Result<(), Error>>,
}

/// What a writer is told whose slot came back empty.
pub const NO_OUTCOME: &'static str = "commit slot completed with no outcome";

impl WriteSlot {
    pub fn new() -> (r: Self)
        ensures
            r.state == SlotState::Idle,
            r.request is Idle,
            r.outcome is None,
    {
        WriteSlot { state: SlotState::Idle, request: WriteRequest::Idle, outcome: None }
    }

    /// Ask for a write. Where an earlier request has not been collected yet,
    /// the new one comes back and the slot stays as it is.
    pub fn arm(&mut self, request: WriteRequest) -> (r: Result<(), WriteRequest>)
        ensures
            old(self).state == SlotState::Idle ==> {
                &&& r is Ok
                &&& final(self).state == SlotState::Pending
                &&& final(self).request == request
                &&& final(self).outcome is None
            },
            old(self).state != SlotState::Idle ==> r == Err::<(), WriteRequest>(request)
                && *final(self) == *old(self),
    {
        match self.state {
            SlotState::Idle => {
                self.request = request;
                self.outcome = None;
                self.state = SlotState::Pending;
                Ok(())
            },
            _ => Err(request),
        }
    }

    /// The leader takes the request.
    pub fn take_request(&mut self) -> (r: WriteRequest)
        ensures
            r == old(self).request,
            final(self).request is Idle,
            final(self).state == old(self).state,
            final(self).outcome == old(self).outcome,
    {
        let mut taken = WriteRequest::Idle;
        std::mem::swap(&mut taken, &mut self.request);
        taken
    }

    /// The leader leaves the outcome.
    pub fn complete(&mut self, outcome: Result<(), Error>)
        ensures
            final(self).state == SlotState::Done,
            final(self).outcome == Some(outcome),
            final(self).request == old(self).request,
    {
        self.outcome = Some(outcome);
        self.state = SlotState::Done;
    }

    /// The outcome is there.
    pub fn is_done(&self) -> (r: bool)
        ensures
            r == (self.state == SlotState::Done),
    {
        match self.state {
            SlotState::Done => true,
            _ => false,
        }
    }

    /// The writer collects the outcome, and the slot is idle again.
    pub fn finish(&mut self) -> (r: Result<(), Error>)
        ensures
            final(self).state == SlotState::Idle,
            final(self).outcome is None,
            final(self).request == old(self).request,
            match old(self).outcome {
                Some(outcome) => r == outcome,
                None => r matches Err(e) && e.kind == ErrorKind::Other && e.message@ == NO_OUTCOME@,
            },
    {
        let mut outcome: Option<Result<(), Error>> = None;
        std::mem::swap(&mut outcome, &mut self.outcome);
        self.state = SlotState::Idle;
        match outcome {
            Some(r) => r,
            None => Err(Error::new(ErrorKind::Other, NO_OUTCOME)),
        }
    }
}

/// A write that has to be on disk when it returns is brought there, unless it
/// goes past the log altogether; every other write reaches the log as well.
pub proof fn lemma_durable_writes_are_synced(durability: DurabilityMode, disable_wal: bool)
    ensures
        asked_of_log(durability, disable_wal) == LogStep::Skip <==> disable_wal,
        asked_of_log(durability, disable_wal) == LogStep::Sync <==> durability
            == DurabilityMode::Immediate && !disable_wal,
{
}

} // verus!
