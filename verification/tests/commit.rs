use lark::engine::commit::log_step;
use lark::engine::commit::DurabilityMode;
use lark::engine::commit::LogStep;
use lark::engine::commit::SlotState;
use lark::engine::commit::WriteRequest;
use lark::engine::commit::WriteSlot;
use lark::engine::db_lock::lock_error;
use lark::error::Error;
use lark::error::ErrorKind;

fn put(key: &[u8], value: &[u8]) -> WriteRequest {
    WriteRequest::Put {
        key: key.to_vec(),
        value: value.to_vec(),
        durability: DurabilityMode::Eventual,
        disable_wal: false,
    }
}

#[test]
fn slot_round_trips_a_request_and_an_outcome() {
    let mut slot = WriteSlot::new();
    assert!(slot.arm(put(b"k", b"v")).is_ok());
    assert!(!slot.is_done());

    let taken = slot.take_request();
    assert_eq!(taken.op_count(), 1);

    slot.complete(Ok(()));
    assert!(slot.is_done());
    assert!(slot.finish().is_ok());
    // Back in service for the next write on this thread.
    assert!(slot.arm(put(b"k2", b"v2")).is_ok());
}

#[test]
fn arm_refuses_a_slot_with_an_outstanding_ticket() {
    let mut slot = WriteSlot::new();
    assert!(slot.arm(put(b"k", b"v")).is_ok());
    match slot.arm(put(b"k2", b"v2")) {
        Err(returned) => assert_eq!(returned.op_count(), 1),
        Ok(()) => panic!("a pending slot must refuse a second request"),
    }
}

#[test]
fn a_completed_slot_with_no_outcome_fails_loud() {
    let mut slot = WriteSlot::new();
    slot.state = SlotState::Done;
    let err = slot.finish().expect_err("missing outcome must be an error");
    assert!(err.message.contains("no outcome"));
}

#[test]
fn a_failed_commit_reaches_the_writer() {
    let mut slot = WriteSlot::new();
    assert!(slot.arm(put(b"k", b"v")).is_ok());
    slot.complete(Err(Error::new(ErrorKind::PermissionDenied, "read only")));
    let err = slot.finish().unwrap_err();
    assert_eq!(err.kind(), ErrorKind::PermissionDenied);
    assert_eq!(err.message, "read only");
    assert_eq!(slot.finish().unwrap_err().kind(), ErrorKind::Other);
}

#[test]
fn an_idle_request_takes_no_sequence_number() {
    assert_eq!(WriteRequest::Idle.op_count(), 0);
}

#[test]
fn the_log_is_synced_flushed_or_skipped() {
    assert_eq!(log_step(DurabilityMode::Immediate, false), LogStep::Sync);
    assert_eq!(log_step(DurabilityMode::Eventual, false), LogStep::Flush);
    assert_eq!(log_step(DurabilityMode::Immediate, true), LogStep::Skip);
    assert_eq!(log_step(DurabilityMode::Eventual, true), LogStep::Skip);
}

#[test]
fn a_held_lock_is_reported_as_existing() {
    assert_eq!(lock_error(ErrorKind::WouldBlock, false), ErrorKind::AlreadyExists);
    assert_eq!(lock_error(ErrorKind::AlreadyExists, false), ErrorKind::AlreadyExists);
    assert_eq!(lock_error(ErrorKind::Other, true), ErrorKind::AlreadyExists);
    assert_eq!(lock_error(ErrorKind::NotFound, false), ErrorKind::NotFound);
}
